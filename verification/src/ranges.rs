//! Half-open millisecond ranges `[start, end)`: sorting, merging and
//! complements.
//!
//! A recording's pauses are kept as a list of such ranges. The functions here
//! bring an arbitrary list into its canonical form (sorted, non-empty, with a
//! gap between neighbours) and compute what is left of a span once the pauses
//! are taken out.

use vstd::prelude::*;
use crate::order::{before, is_stable_order, stable_order};

verus! {

/// Millisecond `t` lies in one of `ranges`.
pub open spec fn covers(ranges: Seq<(u64, u64)>, t: int) -> bool {
    exists|i: int| #![trigger ranges[i]] 0 <= i < ranges.len() && ranges[i].0 <= t && t < ranges[i].1
}

/// Two lists of ranges cover the same milliseconds.
pub open spec fn same_cover(a: Seq<(u64, u64)>, b: Seq<(u64, u64)>) -> bool {
    forall|t: int| #[trigger] covers(a, t) == covers(b, t)
}

/// Canonical form: every range is non-empty, and each one ends strictly before
/// the next one starts.
pub open spec fn is_canonical(ranges: Seq<(u64, u64)>) -> bool {
    &&& forall|i: int| 0 <= i < ranges.len() ==> #[trigger] ranges[i].0 < ranges[i].1
    &&& forall|i: int, j: int| 0 <= i < j < ranges.len() ==> #[trigger] ranges[i].1 < #[trigger] ranges[j].0
}

/// Ranges ordered by their start.
pub open spec fn starts_sorted(ranges: Seq<(u64, u64)>) -> bool {
    forall|i: int, j: int| 0 <= i <= j < ranges.len() ==> #[trigger] ranges[i].0 <= #[trigger] ranges[j].0
}

/// Every range of the list is non-empty.
pub open spec fn all_nonempty(ranges: Seq<(u64, u64)>) -> bool {
    forall|i: int| 0 <= i < ranges.len() ==> #[trigger] ranges[i].0 < ranges[i].1
}

/// The ranges of `ranges` that are not empty, in their order.
pub open spec fn nonempty_ranges(ranges: Seq<(u64, u64)>) -> Seq<(u64, u64)> {
    ranges.filter(|r: (u64, u64)| r.0 < r.1)
}

/// Drops empty ranges; what is covered does not change.
fn drop_empty(ranges: &Vec<(u64, u64)>) -> (r: Vec<(u64, u64)>)
    ensures
        all_nonempty(r@),
        same_cover(r@, ranges@),
        r@.len() <= ranges@.len(),
{
    let mut r: Vec<(u64, u64)> = Vec::new();
    let mut i: usize = 0;
    while i < ranges.len()
        invariant
            i <= ranges.len(),
            r@.len() <= i,
            all_nonempty(r@),
            forall|t: int| #[trigger] covers(r@, t) == covers(ranges@.subrange(0, i as int), t),
        decreases ranges.len() - i,
    {
        let (s, e) = ranges[i];
        let ghost old_r = r@;
        let ghost pre = ranges@.subrange(0, i as int);
        let ghost next = ranges@.subrange(0, i + 1);
        if s < e {
            r.push((s, e));
        }
        proof {
            assert(r@ == if s < e { old_r.push((s, e)) } else { old_r });
            assert(next[i as int] == (s, e));
            assert forall|t: int| #[trigger] covers(r@, t) == covers(next, t) by {
                if covers(r@, t) {
                    let k = choose|k: int| #![trigger r@[k]] 0 <= k < r@.len() && r@[k].0 <= t && t < r@[k].1;
                    if k < old_r.len() {
                        assert(old_r[k] == r@[k]);
                        assert(covers(old_r, t));
                        assert(covers(pre, t));
                        let w = choose|w: int| #![trigger pre[w]] 0 <= w < pre.len() && pre[w].0 <= t && t < pre[w].1;
                        assert(next[w] == pre[w]);
                    } else {
                        assert(next[i as int] == r@[k]);
                    }
                }
                if covers(next, t) {
                    let w = choose|w: int| #![trigger next[w]] 0 <= w < next.len() && next[w].0 <= t && t < next[w].1;
                    if w < i {
                        assert(pre[w] == next[w]);
                        assert(covers(pre, t));
                        assert(covers(old_r, t));
                        let k = choose|k: int| #![trigger old_r[k]] 0 <= k < old_r.len() && old_r[k].0 <= t && t < old_r[k].1;
                        assert(r@[k] == old_r[k]);
                    } else if s < e {
                        assert(r@[old_r.len() as int] == next[w]);
                    }
                }
            }
        }
        i += 1;
    }
    assert(ranges@.subrange(0, ranges.len() as int) =~= ranges@);
    r
}

/// Sorts ranges by start; the sort is stable, so ranges with equal starts keep
/// their relative order.
fn sort_by_start(ranges: &Vec<(u64, u64)>) -> (r: Vec<(u64, u64)>)
    requires
        all_nonempty(ranges@),
    ensures
        starts_sorted(r@),
        all_nonempty(r@),
        same_cover(r@, ranges@),
{
    let mut keys: Vec<u128> = Vec::new();
    let mut i: usize = 0;
    while i < ranges.len()
        invariant
            i <= ranges.len(),
            keys@.len() == i,
            forall|j: int| 0 <= j < i ==> #[trigger] keys@[j] == ranges@[j].0 as u128,
        decreases ranges.len() - i,
    {
        keys.push(ranges[i].0 as u128);
        i += 1;
    }
    let order = stable_order(&keys);
    let mut r: Vec<(u64, u64)> = Vec::new();
    let mut k: usize = 0;
    while k < order.len()
        invariant
            is_stable_order(order@, keys@),
            keys@.len() == ranges@.len(),
            k <= order.len(),
            r@.len() == k,
            forall|j: int| 0 <= j < k ==> #[trigger] r@[j] == ranges@[order@[j] as int],
        decreases order.len() - k,
    {
        r.push(ranges[order[k]]);
        k += 1;
    }
    proof {
        assert forall|a: int, b: int| 0 <= a <= b < r@.len() implies #[trigger] r@[a].0 <= #[trigger] r@[b].0 by {
            if a < b {
                assert(before(keys@, order@[a] as int, order@[b] as int));
            }
        }
        assert forall|t: int| #[trigger] covers(r@, t) == covers(ranges@, t) by {
            if covers(r@, t) {
                let w = choose|w: int| #![trigger r@[w]] 0 <= w < r@.len() && r@[w].0 <= t && t < r@[w].1;
                assert(ranges@[order@[w] as int] == r@[w]);
            }
            if covers(ranges@, t) {
                let w = choose|w: int| #![trigger ranges@[w]] 0 <= w < ranges@.len() && ranges@[w].0 <= t && t < ranges@[w].1;
                assert(order@.contains(w as usize));
                let p = choose|p: int| 0 <= p < order@.len() && order@[p] == w as usize;
                assert(r@[p] == ranges@[w]);
            }
        }
    }
    r
}

/// Merges sorted non-empty ranges into canonical form.
fn merge_sorted(sorted: &Vec<(u64, u64)>) -> (r: Vec<(u64, u64)>)
    requires
        starts_sorted(sorted@),
        all_nonempty(sorted@),
    ensures
        is_canonical(r@),
        same_cover(r@, sorted@),
{
    let mut merged: Vec<(u64, u64)> = Vec::new();
    let mut i: usize = 0;
    while i < sorted.len()
        invariant
            starts_sorted(sorted@),
            all_nonempty(sorted@),
            i <= sorted.len(),
            is_canonical(merged@),
            i == 0 <==> merged@.len() == 0,
            i > 0 ==> merged@.last().0 <= sorted@[i - 1].0,
            forall|t: int| #[trigger] covers(merged@, t) == covers(sorted@.subrange(0, i as int), t),
        decreases sorted.len() - i,
    {
        let (s, e) = sorted[i];
        let ghost old_m = merged@;
        let ghost pre = sorted@.subrange(0, i as int);
        let ghost next = sorted@.subrange(0, i + 1);
        let n = merged.len();
        if n > 0 && s <= merged[n - 1].1 {
            let (ls, le) = merged[n - 1];
            let ne = if e > le { e } else { le };
            merged.set(n - 1, (ls, ne));
            proof {
                assert(ls <= s) by {
                    assert(sorted@[i - 1].0 <= sorted@[i as int].0);
                }
                assert forall|a: int, b: int| 0 <= a < b < merged@.len() implies #[trigger] merged@[a].1 < #[trigger] merged@[b].0 by {
                    assert(old_m[a].1 < old_m[b].0);
                }
                assert forall|t: int| #[trigger] covers(merged@, t) == covers(next, t) by {
                    if covers(merged@, t) {
                        let k = choose|k: int| #![trigger merged@[k]] 0 <= k < merged@.len() && merged@[k].0 <= t && t < merged@[k].1;
                        if k < n - 1 {
                            assert(old_m[k] == merged@[k]);
                            assert(covers(old_m, t));
                        } else if t < le {
                            assert(old_m[k].0 <= t && t < old_m[k].1);
                            assert(covers(old_m, t));
                        } else {
                            assert(next[i as int].0 <= t && t < next[i as int].1);
                        }
                        if covers(old_m, t) {
                            assert(covers(pre, t));
                            let w = choose|w: int| #![trigger pre[w]] 0 <= w < pre.len() && pre[w].0 <= t && t < pre[w].1;
                            assert(next[w] == pre[w]);
                        }
                    }
                    if covers(next, t) {
                        let w = choose|w: int| #![trigger next[w]] 0 <= w < next.len() && next[w].0 <= t && t < next[w].1;
                        if w < i {
                            assert(pre[w] == next[w]);
                            assert(covers(pre, t));
                            assert(covers(old_m, t));
                            let k = choose|k: int| #![trigger old_m[k]] 0 <= k < old_m.len() && old_m[k].0 <= t && t < old_m[k].1;
                            if k < n - 1 {
                                assert(merged@[k] == old_m[k]);
                            } else {
                                assert(merged@[k].0 <= t && t < merged@[k].1);
                            }
                        } else {
                            assert(merged@[n - 1].0 <= t && t < merged@[n - 1].1);
                        }
                    }
                }
            }
        } else {
            merged.push((s, e));
            proof {
                assert forall|a: int, b: int| 0 <= a < b < merged@.len() implies #[trigger] merged@[a].1 < #[trigger] merged@[b].0 by {
                    if b == n {
                        if a < n - 1 {
                            assert(old_m[a].1 < old_m[n - 1].0);
                            assert(old_m[n - 1].0 < old_m[n - 1].1);
                        }
                    } else {
                        assert(old_m[a].1 < old_m[b].0);
                    }
                }
                assert forall|t: int| #[trigger] covers(merged@, t) == covers(next, t) by {
                    if covers(merged@, t) {
                        let k = choose|k: int| #![trigger merged@[k]] 0 <= k < merged@.len() && merged@[k].0 <= t && t < merged@[k].1;
                        if k < n {
                            assert(old_m[k] == merged@[k]);
                            assert(covers(old_m, t));
                            assert(covers(pre, t));
                            let w = choose|w: int| #![trigger pre[w]] 0 <= w < pre.len() && pre[w].0 <= t && t < pre[w].1;
                            assert(next[w] == pre[w]);
                        } else {
                            assert(next[i as int] == merged@[k]);
                        }
                    }
                    if covers(next, t) {
                        let w = choose|w: int| #![trigger next[w]] 0 <= w < next.len() && next[w].0 <= t && t < next[w].1;
                        if w < i {
                            assert(pre[w] == next[w]);
                            assert(covers(pre, t));
                            assert(covers(old_m, t));
                            let k = choose|k: int| #![trigger old_m[k]] 0 <= k < old_m.len() && old_m[k].0 <= t && t < old_m[k].1;
                            assert(merged@[k] == old_m[k]);
                        } else {
                            assert(merged@[n as int] == next[w]);
                        }
                    }
                }
            }
        }
        i += 1;
    }
    assert(sorted@.subrange(0, sorted.len() as int) =~= sorted@);
    merged
}

/// Brings a list of ranges into canonical form: empty ranges are dropped, the
/// rest are sorted by start, and ranges that overlap or touch are merged.
pub fn merge_ranges(ranges: &Vec<(u64, u64)>) -> (r: Vec<(u64, u64)>)
    ensures
        is_canonical(r@),
        same_cover(r@, ranges@),
{
    let nonempty = drop_empty(ranges);
    let sorted = sort_by_start(&nonempty);
    let r = merge_sorted(&sorted);
    proof {
        assert forall|t: int| #[trigger] covers(r@, t) == covers(ranges@, t) by {
            assert(covers(r@, t) == covers(sorted@, t));
            assert(covers(sorted@, t) == covers(nonempty@, t));
            assert(covers(nonempty@, t) == covers(ranges@, t));
        }
    }
    r
}

/// What is left of `[0, total)` once `cut` is taken out, for canonical `cut`
/// that lies within `[0, total]`.
pub fn complement_within(cut: &Vec<(u64, u64)>, total: u64) -> (keep: Vec<(u64, u64)>)
    requires
        is_canonical(cut@),
        forall|i: int| 0 <= i < cut@.len() ==> #[trigger] cut@[i].1 <= total,
    ensures
        is_canonical(keep@),
        forall|i: int| 0 <= i < keep@.len() ==> #[trigger] keep@[i].1 <= total,
        forall|t: int| #[trigger] covers(keep@, t) == (0 <= t < total && !covers(cut@, t)),
{
    let mut keep: Vec<(u64, u64)> = Vec::new();
    let mut cursor: u64 = 0;
    let mut k: usize = 0;
    while k < cut.len()
        invariant
            is_canonical(cut@),
            forall|i: int| 0 <= i < cut@.len() ==> #[trigger] cut@[i].1 <= total,
            k <= cut.len(),
            k == 0 ==> cursor == 0,
            k > 0 ==> cursor == cut@[k - 1].1,
            cursor <= total,
            is_canonical(keep@),
            forall|i: int| 0 <= i < keep@.len() ==> #[trigger] keep@[i].1 < cursor,
            forall|t: int| #[trigger] covers(keep@, t) == (0 <= t < cursor && !covers(cut@.subrange(0, k as int), t)),
        decreases cut.len() - k,
    {
        let (ps, pe) = cut[k];
        let ghost old_keep = keep@;
        let ghost old_cursor = cursor;
        let ghost pre = cut@.subrange(0, k as int);
        let ghost next = cut@.subrange(0, k + 1);
        proof {
            assert(ps < pe);
            if k > 0 {
                assert(cut@[k - 1].1 < cut@[k as int].0);
            }
            // Every range before `k` ends at or before the cursor.
            assert forall|i: int| 0 <= i < k implies #[trigger] cut@[i].1 <= old_cursor by {
                if i < k - 1 {
                    assert(cut@[i].1 < cut@[k - 1].0);
                    assert(cut@[k - 1].0 < cut@[k - 1].1);
                }
            }
        }
        if ps > cursor {
            keep.push((cursor, ps));
        }
        cursor = pe;
        proof {
            assert(keep@ == if ps > old_cursor { old_keep.push((old_cursor, ps)) } else { old_keep });
            assert forall|a: int, b: int| 0 <= a < b < keep@.len() implies #[trigger] keep@[a].1 < #[trigger] keep@[b].0 by {
                if b == old_keep.len() {
                    assert(old_keep[a].1 < old_cursor);
                } else {
                    assert(old_keep[a].1 < old_keep[b].0);
                }
            }
            assert forall|i: int| 0 <= i < keep@.len() implies #[trigger] keep@[i].1 < cursor by {
                if i < old_keep.len() {
                    assert(old_keep[i].1 < old_cursor);
                }
            }
            assert forall|t: int| #[trigger] covers(keep@, t) == (0 <= t < cursor && !covers(next, t)) by {
                if covers(next, t) {
                    let w = choose|w: int| #![trigger next[w]] 0 <= w < next.len() && next[w].0 <= t && t < next[w].1;
                    if w < k {
                        assert(pre[w] == next[w]);
                        assert(covers(pre, t));
                        assert(!covers(old_keep, t));
                    }
                    if covers(keep@, t) {
                        let j = choose|j: int| #![trigger keep@[j]] 0 <= j < keep@.len() && keep@[j].0 <= t && t < keep@[j].1;
                        if j < old_keep.len() {
                            assert(old_keep[j] == keep@[j]);
                            assert(covers(old_keep, t));
                            assert(t < old_cursor);
                            assert(w < k) by {
                                if w == k {
                                    assert(next[w].0 == ps);
                                }
                            }
                        }
                    }
                } else if 0 <= t < cursor {
                    if t < old_cursor {
                        assert(!covers(pre, t)) by {
                            if covers(pre, t) {
                                let w = choose|w: int| #![trigger pre[w]] 0 <= w < pre.len() && pre[w].0 <= t && t < pre[w].1;
                                assert(next[w] == pre[w]);
                            }
                        }
                        assert(covers(old_keep, t));
                        let j = choose|j: int| #![trigger old_keep[j]] 0 <= j < old_keep.len() && old_keep[j].0 <= t && t < old_keep[j].1;
                        assert(keep@[j] == old_keep[j]);
                    } else if t < ps {
                        assert(keep@[old_keep.len() as int] == (old_cursor, ps));
                    } else {
                        assert(next[k as int] == (ps, pe));
                    }
                } else if covers(keep@, t) {
                    let j = choose|j: int| #![trigger keep@[j]] 0 <= j < keep@.len() && keep@[j].0 <= t && t < keep@[j].1;
                    assert(keep@[j].1 < cursor);
                }
            }
        }
        k += 1;
    }
    let ghost before_tail = keep@;
    let ghost last_cursor = cursor;
    proof {
        assert(cut@.subrange(0, cut.len() as int) =~= cut@);
        assert forall|i: int| 0 <= i < cut@.len() implies #[trigger] cut@[i].1 <= last_cursor by {
            if i < cut@.len() - 1 {
                assert(cut@[i].1 < cut@[cut@.len() - 1].0);
                assert(cut@[cut@.len() - 1].0 < cut@[cut@.len() - 1].1);
            }
        }
    }
    if cursor < total {
        keep.push((cursor, total));
    }
    proof {
        assert(keep@ == if last_cursor < total { before_tail.push((last_cursor, total)) } else { before_tail });
        assert forall|a: int, b: int| 0 <= a < b < keep@.len() implies #[trigger] keep@[a].1 < #[trigger] keep@[b].0 by {
            if b == before_tail.len() {
                assert(before_tail[a].1 < last_cursor);
            } else {
                assert(before_tail[a].1 < before_tail[b].0);
            }
        }
        assert forall|i: int| 0 <= i < keep@.len() implies #[trigger] keep@[i].1 <= total by {
            if i < before_tail.len() {
                assert(before_tail[i].1 < last_cursor);
            }
        }
        assert forall|t: int| #[trigger] covers(keep@, t) == (0 <= t < total && !covers(cut@, t)) by {
            if covers(cut@, t) {
                let w = choose|w: int| #![trigger cut@[w]] 0 <= w < cut@.len() && cut@[w].0 <= t && t < cut@[w].1;
                assert(t < last_cursor);
                assert(!covers(before_tail, t));
                if covers(keep@, t) {
                    let j = choose|j: int| #![trigger keep@[j]] 0 <= j < keep@.len() && keep@[j].0 <= t && t < keep@[j].1;
                    if j < before_tail.len() {
                        assert(before_tail[j] == keep@[j]);
                        assert(covers(before_tail, t));
                    }
                }
            } else if 0 <= t < total {
                if t < last_cursor {
                    assert(covers(before_tail, t));
                    let j = choose|j: int| #![trigger before_tail[j]] 0 <= j < before_tail.len() && before_tail[j].0 <= t && t < before_tail[j].1;
                    assert(keep@[j] == before_tail[j]);
                } else {
                    assert(keep@[before_tail.len() as int] == (last_cursor, total));
                }
            } else if covers(keep@, t) {
                let j = choose|j: int| #![trigger keep@[j]] 0 <= j < keep@.len() && keep@[j].0 <= t && t < keep@[j].1;
                if j < before_tail.len() {
                    assert(before_tail[j].1 < last_cursor);
                }
            }
        }
    }
    keep
}

proof fn lemma_first_starts_earliest(a: Seq<(u64, u64)>, k: int)
    requires
        is_canonical(a),
        0 <= k < a.len(),
    ensures
        a[0].0 <= a[k].0,
        k > 0 ==> a[0].1 < a[k].0,
{
    if k > 0 {
        assert(a[0].1 < a[k].0);
        assert(a[0].0 < a[0].1);
    }
}

proof fn lemma_tail_cover(a: Seq<(u64, u64)>, t: int)
    requires
        is_canonical(a),
        a.len() > 0,
    ensures
        is_canonical(a.drop_first()),
        covers(a.drop_first(), t) == (covers(a, t) && t >= a[0].1),
{
    let d = a.drop_first();
    assert forall|i: int, j: int| 0 <= i < j < d.len() implies #[trigger] d[i].1 < #[trigger] d[j].0 by {
        assert(d[i] == a[i + 1] && d[j] == a[j + 1]);
    }
    if covers(d, t) {
        let w = choose|w: int| #![trigger d[w]] 0 <= w < d.len() && d[w].0 <= t && t < d[w].1;
        assert(a[w + 1] == d[w]);
        lemma_first_starts_earliest(a, w + 1);
    }
    if covers(a, t) && t >= a[0].1 {
        let w = choose|w: int| #![trigger a[w]] 0 <= w < a.len() && a[w].0 <= t && t < a[w].1;
        assert(w != 0);
        assert(d[w - 1] == a[w]);
    }
}

/// A canonical list of ranges is determined by the milliseconds it covers:
/// two canonical lists that cover the same milliseconds are equal.
pub proof fn law_canonical_ranges_are_unique(a: Seq<(u64, u64)>, b: Seq<(u64, u64)>)
    requires
        is_canonical(a),
        is_canonical(b),
        same_cover(a, b),
    ensures
        a == b,
    decreases a.len() + b.len(),
{
    if a.len() == 0 || b.len() == 0 {
        if a.len() > 0 {
            let t = a[0].0 as int;
            assert(covers(a, t));
            assert(covers(b, t));
            assert(false);
        }
        if b.len() > 0 {
            let t = b[0].0 as int;
            assert(covers(b, t));
            assert(covers(a, t));
            assert(false);
        }
        assert(a =~= b);
    } else {
        let (s1, e1) = a[0];
        let (s2, e2) = b[0];
        assert(s1 == s2) by {
            if s1 < s2 {
                assert(covers(a, s1 as int));
                assert(covers(b, s1 as int));
                let k = choose|k: int| #![trigger b[k]] 0 <= k < b.len() && b[k].0 <= s1 && s1 < b[k].1;
                lemma_first_starts_earliest(b, k);
            } else if s2 < s1 {
                assert(covers(b, s2 as int));
                assert(covers(a, s2 as int));
                let k = choose|k: int| #![trigger a[k]] 0 <= k < a.len() && a[k].0 <= s2 && s2 < a[k].1;
                lemma_first_starts_earliest(a, k);
            }
        }
        assert(e1 == e2) by {
            if e1 < e2 {
                assert(b[0].0 <= e1 && e1 < b[0].1);
                assert(covers(b, e1 as int));
                assert(covers(a, e1 as int));
                let k = choose|k: int| #![trigger a[k]] 0 <= k < a.len() && a[k].0 <= e1 && e1 < a[k].1;
                lemma_first_starts_earliest(a, k);
            } else if e2 < e1 {
                assert(a[0].0 <= e2 && e2 < a[0].1);
                assert(covers(a, e2 as int));
                assert(covers(b, e2 as int));
                let k = choose|k: int| #![trigger b[k]] 0 <= k < b.len() && b[k].0 <= e2 && e2 < b[k].1;
                lemma_first_starts_earliest(b, k);
            }
        }
        let da = a.drop_first();
        let db = b.drop_first();
        assert forall|t: int| #[trigger] covers(da, t) == covers(db, t) by {
            lemma_tail_cover(a, t);
            lemma_tail_cover(b, t);
        }
        lemma_tail_cover(a, 0);
        lemma_tail_cover(b, 0);
        law_canonical_ranges_are_unique(da, db);
        assert(a =~= seq![a[0]] + da);
        assert(b =~= seq![b[0]] + db);
    }
}

/// Taking the complement twice within the same span gives the cut back: the
/// spans kept after a cut, cut out in turn, leave exactly the first cut.
pub proof fn law_complement_twice_gives_back(cut: Seq<(u64, u64)>, once: Seq<(u64, u64)>, twice: Seq<(u64, u64)>, total: u64)
    requires
        is_canonical(cut),
        forall|i: int| 0 <= i < cut.len() ==> #[trigger] cut[i].1 <= total,
        is_canonical(once),
        forall|t: int| #[trigger] covers(once, t) == (0 <= t < total && !covers(cut, t)),
        is_canonical(twice),
        forall|t: int| #[trigger] covers(twice, t) == (0 <= t < total && !covers(once, t)),
    ensures
        twice == cut,
{
    assert forall|t: int| #[trigger] covers(twice, t) == covers(cut, t) by {
        if covers(cut, t) {
            let i = choose|i: int| #![trigger cut[i]] 0 <= i < cut.len() && cut[i].0 <= t && t < cut[i].1;
            assert(cut[i].1 <= total);
        }
        assert(covers(once, t) == (0 <= t < total && !covers(cut, t)));
    }
    law_canonical_ranges_are_unique(twice, cut);
}

/// Merging is idempotent: a canonical list merges to itself.
pub proof fn law_merge_of_canonical_is_identity(a: Seq<(u64, u64)>, merged: Seq<(u64, u64)>)
    requires
        is_canonical(a),
        is_canonical(merged),
        same_cover(merged, a),
    ensures
        merged == a,
{
    law_canonical_ranges_are_unique(merged, a);
}

} // verus!
