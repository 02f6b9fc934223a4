//! The timing rules of the automatic camera.
//!
//! Clicks decide when the camera zooms in. Depending on the activation mode a
//! zoom needs a single click, a click with Ctrl held, or several clicks within
//! a time window; clicks close together form one cluster and one zoom. The
//! camera is then simulated on a fixed tick, and the runs of ticks during
//! which it is locked on a target become the zoom segments of the timeline.
//!
//! Where the targets are (centres, zoom factors, spring motion) is computed in
//! floating point outside this crate; everything here decides *when*.

use vstd::prelude::*;
use crate::order::{before, is_stable_order, keys_from_u64, stable_order};
use crate::text::{
    ascii_lower_seq, ascii_lowercase, chars_of, contains, contains_str, push_decimal, push_str,
    string_from_chars, trim, trim_ws, decimal,
};

verus! {

broadcast use vstd::string::group_string_axioms;

// ---------------------------------------------------------------------------
// Activation configuration
// ---------------------------------------------------------------------------

/// What clicks make the camera zoom in.
#[derive(Clone, Copy, Debug, PartialEq, Eq, Structural)]
pub enum ClickActivationMode {
    /// Every click.
    SingleClick,
    /// Several clicks within a time window.
    MultiClickWindow,
    /// A click while Ctrl is held.
    CtrlClick,
}

/// The integer settings of the camera that decide when it zooms.
#[derive(Clone, Copy, Debug, PartialEq, Eq, Structural)]
pub struct ClickActivationConfig {
    pub click_activation_mode: ClickActivationMode,
    /// Length of the window in which clicks are counted (multi-click mode).
    pub activation_window_ms: u64,
    /// Clicks needed inside the window (multi-click mode).
    pub min_clicks_to_activate: usize,
    /// Clicks at most this far apart belong to one cluster.
    pub click_cluster_gap_ms: u64,
    /// Least time between the starts of two zooms.
    pub min_zoom_interval_ms: u64,
    /// Least time a zoom stays locked after its cluster starts.
    pub min_lock_duration_ms: u64,
    /// A lock is released this long after the last activity it was extended by.
    pub lock_recent_window_ms: u64,
    /// Simulation tick.
    pub fixed_dt_ms: u64,
    /// How far before a click the camera may start moving.
    pub max_lookahead_ms: u64,
    /// Least spacing of the target points kept in a segment.
    pub segment_target_sample_ms: u64,
    /// A scroll pause longer than this starts a new scroll session.
    pub scroll_idle_reset_ms: u64,
    /// A scroll session this long zooms the camera out.
    pub global_scroll_duration_ms: u64,
}

impl Default for ClickActivationConfig {
    fn default() -> (c: Self)
        ensures
            c == default_activation_config(),
    {
        ClickActivationConfig {
            click_activation_mode: ClickActivationMode::MultiClickWindow,
            activation_window_ms: 3_000,
            min_clicks_to_activate: 2,
            click_cluster_gap_ms: 300,
            min_zoom_interval_ms: 2_000,
            min_lock_duration_ms: 0,
            lock_recent_window_ms: 2_000,
            fixed_dt_ms: 8,
            max_lookahead_ms: 400,
            segment_target_sample_ms: 75,
            scroll_idle_reset_ms: 300,
            global_scroll_duration_ms: 3_000,
        }
    }
}

pub open spec fn default_activation_config() -> ClickActivationConfig {
    ClickActivationConfig {
        click_activation_mode: ClickActivationMode::MultiClickWindow,
        activation_window_ms: 3_000,
        min_clicks_to_activate: 2,
        click_cluster_gap_ms: 300,
        min_zoom_interval_ms: 2_000,
        min_lock_duration_ms: 0,
        lock_recent_window_ms: 2_000,
        fixed_dt_ms: 8,
        max_lookahead_ms: 400,
        segment_target_sample_ms: 75,
        scroll_idle_reset_ms: 300,
        global_scroll_duration_ms: 3_000,
    }
}

// ---------------------------------------------------------------------------
// Ctrl detection
// ---------------------------------------------------------------------------

/// A key code names a Ctrl key: after trimming and lower-casing it is `ctrl`
/// or contains `control`.
pub open spec fn is_ctrl_code(key_code: Seq<char>) -> bool {
    let n = ascii_lower_seq(trim(key_code));
    n == "ctrl"@ || contains_str(n, "control"@)
}

pub fn is_ctrl_key_code(key_code: &str) -> (b: bool)
    ensures
        b == is_ctrl_code(key_code@),
{
    let cs = chars_of(key_code);
    let trimmed = trim_ws(&cs);
    let n = ascii_lowercase(&trimmed);
    let ctrl = chars_of("ctrl");
    proof {
        reveal_strlit("ctrl");
    }
    let mut is_ctrl = n.len() == 4;
    if is_ctrl {
        let mut k: usize = 0;
        while k < 4
            invariant
                n.len() == 4,
                ctrl@ == "ctrl"@,
                ctrl.len() == 4,
                k <= 4,
                is_ctrl == (forall|j: int| 0 <= j < k ==> n@[j] == ctrl@[j]),
            decreases 4 - k,
        {
            if n[k] != ctrl[k] {
                is_ctrl = false;
            }
            k += 1;
        }
        proof {
            if is_ctrl {
                assert(n@ =~= "ctrl"@);
            }
        }
    }
    proof {
        if n@ == "ctrl"@ {
            assert(n@.len() == 4);
            assert(forall|j: int| 0 <= j < 4 ==> n@[j] == ctrl@[j]);
        }
    }
    is_ctrl || contains(&n, "control")
}

// ---------------------------------------------------------------------------
// Clicks and the Ctrl state
// ---------------------------------------------------------------------------

/// The part of an input event that decides which clicks may zoom.
#[derive(Clone, Debug)]
pub enum FocusInputKind {
    KeyDown(String),
    KeyUp(String),
    Click,
    Other,
}

/// An input event: its timestamp and kind.
#[derive(Clone, Debug)]
pub struct FocusInput {
    pub ts: u64,
    pub kind: FocusInputKind,
}

/// A click, with its index among the events and whether Ctrl was held.
#[derive(Clone, Copy, Debug, PartialEq, Eq, Structural)]
pub struct FocusClick {
    pub event_index: usize,
    pub ts: u64,
    pub ctrl_pressed: bool,
}

/// Whether Ctrl is held after the events `evs`, taken in this order.
pub open spec fn ctrl_after(evs: Seq<FocusInput>) -> bool
    decreases evs.len(),
{
    if evs.len() == 0 {
        false
    } else {
        match evs.last().kind {
            FocusInputKind::KeyDown(k) => if is_ctrl_code(k@) { true } else { ctrl_after(evs.drop_last()) },
            FocusInputKind::KeyUp(k) => if is_ctrl_code(k@) { false } else { ctrl_after(evs.drop_last()) },
            _ => ctrl_after(evs.drop_last()),
        }
    }
}

/// The clicks among the events `order` picks from `evs`, in that order, each
/// with the Ctrl state at its time.
pub open spec fn clicks_in(order: Seq<usize>, evs: Seq<FocusInput>) -> Seq<FocusClick>
    decreases order.len(),
{
    if order.len() == 0 {
        seq![]
    } else {
        let rest = clicks_in(order.drop_last(), evs);
        let i = order.last();
        match evs[i as int].kind {
            FocusInputKind::Click => rest.push(
                FocusClick {
                    event_index: i,
                    ts: evs[i as int].ts,
                    ctrl_pressed: ctrl_after(order.drop_last().map_values(|j: usize| evs[j as int])),
                },
            ),
            _ => rest,
        }
    }
}

pub open spec fn event_times(evs: Seq<FocusInput>) -> Seq<u128> {
    Seq::new(evs.len(), |i: int| evs[i].ts as u128)
}

/// The clicks of `events`, in the stable order of their timestamps, each with
/// the Ctrl state that the key events before it (in that order) leave.
pub fn collect_focus_clicks(events: &Vec<FocusInput>) -> (r: Vec<FocusClick>)
    ensures
        exists|order: Seq<usize>| #![trigger clicks_in(order, events@)]
            is_stable_order(order, event_times(events@)) && r@ == clicks_in(order, events@),
{
    let mut keys: Vec<u128> = Vec::new();
    let mut i: usize = 0;
    while i < events.len()
        invariant
            i <= events.len(),
            keys@.len() == i,
            forall|j: int| 0 <= j < i ==> #[trigger] keys@[j] == events@[j].ts as u128,
        decreases events.len() - i,
    {
        keys.push(events[i].ts as u128);
        i += 1;
    }
    assert(keys@ =~= event_times(events@));
    let order = stable_order(&keys);
    let mut clicks: Vec<FocusClick> = Vec::new();
    let mut ctrl = false;
    let mut p: usize = 0;
    while p < order.len()
        invariant
            is_stable_order(order@, keys@),
            keys@.len() == events@.len(),
            p <= order.len(),
            ctrl == ctrl_after(order@.subrange(0, p as int).map_values(|j: usize| events@[j as int])),
            clicks@ == clicks_in(order@.subrange(0, p as int), events@),
        decreases order.len() - p,
    {
        let idx = order[p];
        let ghost pre = order@.subrange(0, p as int);
        let ghost next = order@.subrange(0, p + 1);
        proof {
            assert(next.drop_last() =~= pre);
            assert(next.map_values(|j: usize| events@[j as int]).drop_last() =~= pre.map_values(
                |j: usize| events@[j as int],
            ));
        }
        match &events[idx].kind {
            FocusInputKind::KeyDown(k) => {
                if is_ctrl_key_code(k.as_str()) {
                    ctrl = true;
                }
            },
            FocusInputKind::KeyUp(k) => {
                if is_ctrl_key_code(k.as_str()) {
                    ctrl = false;
                }
            },
            FocusInputKind::Click => {
                clicks.push(FocusClick { event_index: idx, ts: events[idx].ts, ctrl_pressed: ctrl });
            },
            FocusInputKind::Other => {},
        }
        p += 1;
    }
    proof {
        assert(order@.subrange(0, order@.len() as int) =~= order@);
    }
    clicks
}

// ---------------------------------------------------------------------------
// Activation
// ---------------------------------------------------------------------------

/// The first index of the run of clicks, ending at `idx`, whose timestamps are
/// all at least `window_start`.
pub open spec fn run_start(ts: Seq<u64>, idx: int, window_start: int) -> int
    decreases idx,
{
    if idx <= 0 {
        0
    } else if ts[idx - 1] >= window_start {
        run_start(ts, idx - 1, window_start)
    } else {
        idx
    }
}

/// Click `idx` completes an activation: counting back from it, at least
/// `min_clicks` clicks lie within `window_ms` before it.
pub open spec fn completes_activation(ts: Seq<u64>, idx: int, window_ms: u64, min_clicks: usize) -> bool {
    let ws = ts[idx].saturating_sub(if window_ms > 1 { window_ms } else { 1 });
    idx + 1 - run_start(ts, idx, ws as int) >= min_clicks
}

/// Click `idx` is kept: it completes an activation, or it is the click just
/// before one that does, and at most `rapid_gap_ms` before it.
pub open spec fn activation_selected(ts: Seq<u64>, idx: int, window_ms: u64, min_clicks: usize, rapid_gap_ms: u64) -> bool {
    ||| completes_activation(ts, idx, window_ms, min_clicks)
    ||| (idx + 1 < ts.len() && completes_activation(ts, idx + 1, window_ms, min_clicks)
        && ts[idx + 1].saturating_sub(ts[idx]) <= (if rapid_gap_ms > 1 { rapid_gap_ms } else { 1 }))
}

/// The indices `i` of `0..n` with `p(i)`, in order.
pub open spec fn indices_where(n: int, p: spec_fn(int) -> bool) -> Seq<usize>
    decreases n,
{
    if n <= 0 {
        seq![]
    } else if p(n - 1) {
        indices_where(n - 1, p).push((n - 1) as usize)
    } else {
        indices_where(n - 1, p)
    }
}

/// The clicks (given by their timestamps, in order) that survive the
/// multi-click activation rule, as indices. Fewer clicks than
/// `max(min_clicks, 1)` select none.
pub fn filter_clicks_by_activation_window(ts: &Vec<u64>, window_ms: u64, min_clicks: usize, rapid_gap_ms: u64) -> (r: Vec<usize>)
    ensures
        ts@.len() < (if min_clicks > 1 { min_clicks } else { 1 }) ==> r@.len() == 0,
        ts@.len() >= (if min_clicks > 1 { min_clicks } else { 1 }) ==> r@ == indices_where(
            ts@.len() as int,
            |i: int| activation_selected(ts@, i, window_ms, min_clicks, rapid_gap_ms),
        ),
{
    let least = if min_clicks > 1 { min_clicks } else { 1 };
    if ts.len() < least {
        return Vec::new();
    }
    let n = ts.len();
    let w = if window_ms > 1 { window_ms } else { 1 };
    let g = if rapid_gap_ms > 1 { rapid_gap_ms } else { 1 };
    let mut qualifies: Vec<bool> = Vec::new();
    let mut idx: usize = 0;
    while idx < n
        invariant
            n == ts.len(),
            w == (if window_ms > 1 { window_ms } else { 1 }),
            idx <= n,
            qualifies@.len() == idx,
            forall|j: int| 0 <= j < idx ==> #[trigger] qualifies@[j] == completes_activation(ts@, j, window_ms, min_clicks),
        decreases n - idx,
    {
        let window_start = ts[idx].saturating_sub(w);
        let mut left = idx;
        while left > 0 && ts[left - 1] >= window_start
            invariant
                left <= idx < n == ts.len(),
                run_start(ts@, left as int, window_start as int) == run_start(ts@, idx as int, window_start as int),
            decreases left,
        {
            left -= 1;
        }
        qualifies.push(idx + 1 - left >= min_clicks);
        idx += 1;
    }
    let mut r: Vec<usize> = Vec::new();
    let ghost sel = |i: int| activation_selected(ts@, i, window_ms, min_clicks, rapid_gap_ms);
    let mut k: usize = 0;
    while k < n
        invariant
            n == ts.len(),
            g == (if rapid_gap_ms > 1 { rapid_gap_ms } else { 1 }),
            qualifies@.len() == n,
            forall|j: int| 0 <= j < n ==> #[trigger] qualifies@[j] == completes_activation(ts@, j, window_ms, min_clicks),
            sel == (|i: int| activation_selected(ts@, i, window_ms, min_clicks, rapid_gap_ms)),
            k <= n,
            r@ == indices_where(k as int, sel),
        decreases n - k,
    {
        let keep = qualifies[k] || (k + 1 < n && qualifies[k + 1] && ts[k + 1].saturating_sub(ts[k]) <= g);
        proof {
            assert(keep == sel(k as int));
        }
        if keep {
            r.push(k);
        }
        k += 1;
    }
    r
}

/// The clicks that may zoom under `config`, as indices into `clicks`.
pub fn filter_clicks_by_activation_mode(clicks: &Vec<FocusClick>, config: &ClickActivationConfig) -> (r: Vec<usize>)
    ensures
        config.click_activation_mode == ClickActivationMode::SingleClick ==> r@ == indices_where(
            clicks@.len() as int,
            |i: int| true,
        ),
        config.click_activation_mode == ClickActivationMode::CtrlClick ==> r@ == indices_where(
            clicks@.len() as int,
            |i: int| clicks@[i].ctrl_pressed,
        ),
        config.click_activation_mode == ClickActivationMode::MultiClickWindow ==> ({
            let ts = clicks@.map_values(|c: FocusClick| c.ts);
            let w = if config.activation_window_ms > 1 { config.activation_window_ms } else { 1 };
            let m = if config.min_clicks_to_activate > 1 { config.min_clicks_to_activate } else { 1 };
            let g = if config.click_cluster_gap_ms > 1 { config.click_cluster_gap_ms } else { 1 };
            &&& ts.len() < m ==> r@.len() == 0
            &&& ts.len() >= m ==> r@ == indices_where(ts.len() as int, |i: int| activation_selected(ts, i, w, m, g))
        }),
{
    match config.click_activation_mode {
        ClickActivationMode::MultiClickWindow => {
            let mut ts: Vec<u64> = Vec::new();
            let mut i: usize = 0;
            while i < clicks.len()
                invariant
                    i <= clicks.len(),
                    ts@ == clicks@.map_values(|c: FocusClick| c.ts).subrange(0, i as int),
                decreases clicks.len() - i,
            {
                ts.push(clicks[i].ts);
                i += 1;
                assert(ts@ =~= clicks@.map_values(|c: FocusClick| c.ts).subrange(0, i as int));
            }
            assert(ts@ =~= clicks@.map_values(|c: FocusClick| c.ts));
            let w = if config.activation_window_ms > 1 { config.activation_window_ms } else { 1 };
            let m = if config.min_clicks_to_activate > 1 { config.min_clicks_to_activate } else { 1 };
            let g = if config.click_cluster_gap_ms > 1 { config.click_cluster_gap_ms } else { 1 };
            filter_clicks_by_activation_window(&ts, w, m, g)
        },
        _ => {
            let ctrl_only = config.click_activation_mode == ClickActivationMode::CtrlClick;
            let ghost p = if ctrl_only { |i: int| clicks@[i].ctrl_pressed } else { |i: int| true };
            let mut r: Vec<usize> = Vec::new();
            let mut k: usize = 0;
            while k < clicks.len()
                invariant
                    k <= clicks.len(),
                    p == (if ctrl_only { |i: int| clicks@[i].ctrl_pressed } else { |i: int| true }),
                    r@ == indices_where(k as int, p),
                decreases clicks.len() - k,
            {
                if !ctrl_only || clicks[k].ctrl_pressed {
                    r.push(k);
                }
                k += 1;
            }
            r
        },
    }
}

// ---------------------------------------------------------------------------
// Clusters
// ---------------------------------------------------------------------------

/// `clusters` cut the clicks `0..ts.len()` into consecutive groups, each
/// `[first, end)`, such that neighbouring clicks of a group are at most
/// `gap_ms` apart and the first click of each later group is more than
/// `gap_ms` after the click before it.
pub open spec fn is_click_clustering(clusters: Seq<(usize, usize)>, ts: Seq<u64>, gap_ms: u64) -> bool {
    &&& ts.len() == 0 <==> clusters.len() == 0
    &&& clusters.len() > 0 ==> clusters[0].0 == 0 && clusters.last().1 == ts.len()
    &&& forall|k: int| 0 <= k < clusters.len() ==> #[trigger] clusters[k].0 < clusters[k].1
    &&& forall|k: int| 0 <= k < clusters.len() - 1 ==> #[trigger] clusters[k].1 == clusters[k + 1].0
    &&& forall|k: int, j: int| #![trigger clusters[k], ts[j]]
        0 <= k < clusters.len() && clusters[k].0 < j < clusters[k].1 ==> ts[j].saturating_sub(ts[j - 1]) <= gap_ms
    &&& forall|k: int| 0 < k < clusters.len() ==> ts[#[trigger] clusters[k].0 as int].saturating_sub(
        ts[clusters[k].0 - 1],
    ) > gap_ms
}

/// Groups clicks (by their timestamps, in order) into clusters: a click at
/// most `gap_ms` after the previous one joins its cluster.
pub fn cluster_click_times(ts: &Vec<u64>, gap_ms: u64) -> (clusters: Vec<(usize, usize)>)
    ensures
        is_click_clustering(clusters@, ts@, gap_ms),
{
    let n = ts.len();
    let mut clusters: Vec<(usize, usize)> = Vec::new();
    if n == 0 {
        return clusters;
    }
    let mut first: usize = 0;
    let mut j: usize = 1;
    while j < n
        invariant
            n == ts.len(),
            1 <= j <= n,
            first < j,
            clusters@.len() > 0 ==> clusters@[0].0 == 0 && clusters@.last().1 == first,
            clusters@.len() == 0 ==> first == 0,
            forall|k: int| 0 <= k < clusters@.len() ==> #[trigger] clusters@[k].0 < clusters@[k].1,
            forall|k: int| 0 <= k < clusters@.len() - 1 ==> #[trigger] clusters@[k].1 == clusters@[k + 1].0,
            forall|k: int, i: int| #![trigger clusters@[k], ts@[i]]
                0 <= k < clusters@.len() && clusters@[k].0 < i < clusters@[k].1 ==> ts@[i].saturating_sub(ts@[i - 1]) <= gap_ms,
            forall|i: int| first < i < j ==> #[trigger] ts@[i].saturating_sub(ts@[i - 1]) <= gap_ms,
            forall|k: int| 0 < k < clusters@.len() ==> ts@[#[trigger] clusters@[k].0 as int].saturating_sub(
                ts@[clusters@[k].0 - 1],
            ) > gap_ms,
            clusters@.len() > 0 ==> ts@[first as int].saturating_sub(ts@[first - 1]) > gap_ms,
        decreases n - j,
    {
        if ts[j].saturating_sub(ts[j - 1]) > gap_ms {
            let ghost old_c = clusters@;
            clusters.push((first, j));
            proof {
                assert forall|k: int, i: int| #![trigger clusters@[k], ts@[i]]
                    0 <= k < clusters@.len() && clusters@[k].0 < i < clusters@[k].1 implies ts@[i].saturating_sub(ts@[i - 1]) <= gap_ms by {
                    if k < old_c.len() {
                        assert(clusters@[k] == old_c[k]);
                    }
                }
                assert forall|k: int| 0 < k < clusters@.len() implies ts@[#[trigger] clusters@[k].0 as int].saturating_sub(
                    ts@[clusters@[k].0 - 1],
                ) > gap_ms by {
                    if k < old_c.len() {
                        assert(clusters@[k] == old_c[k]);
                    }
                }
            }
            first = j;
        }
        j += 1;
    }
    let ghost old_c = clusters@;
    clusters.push((first, n));
    proof {
        assert forall|k: int, i: int| #![trigger clusters@[k], ts@[i]]
            0 <= k < clusters@.len() && clusters@[k].0 < i < clusters@[k].1 implies ts@[i].saturating_sub(ts@[i - 1]) <= gap_ms by {
            if k < old_c.len() {
                assert(clusters@[k] == old_c[k]);
            }
        }
        assert forall|k: int| 0 < k < clusters@.len() implies ts@[#[trigger] clusters@[k].0 as int].saturating_sub(
            ts@[clusters@[k].0 - 1],
        ) > gap_ms by {
            if k < old_c.len() {
                assert(clusters@[k] == old_c[k]);
            }
        }
    }
    clusters
}

// ---------------------------------------------------------------------------
// Pre-roll
// ---------------------------------------------------------------------------

/// The samples within the look-ahead window before a click.
pub open spec fn preroll_window(samples: Seq<(u64, bool)>, click_ts: u64, max_lookahead_ms: u64) -> Seq<(u64, bool)> {
    let ws = click_ts.saturating_sub(if max_lookahead_ms > 1 { max_lookahead_ms } else { 1 });
    samples.filter(|s: (u64, bool)| ws <= s.0 && s.0 <= click_ts)
}

/// The cursor slows down between samples `j` and `j + 1`.
pub open spec fn slows_down_at(w: Seq<(u64, bool)>, j: int) -> bool {
    0 <= j && j + 1 < w.len() && w[j].1 && !w[j + 1].1
}

/// The first slow-down at or after `j`.
pub open spec fn first_slowdown_from(w: Seq<(u64, bool)>, j: int) -> Option<int>
    decreases w.len() - j,
{
    if j < 0 || j + 1 >= w.len() {
        None
    } else if slows_down_at(w, j) {
        Some(j)
    } else {
        first_slowdown_from(w, j + 1)
    }
}

pub open spec fn min_u64(a: u64, b: u64) -> u64 {
    if a < b { a } else { b }
}

/// When the camera starts moving towards a click, given the cursor samples
/// (time, moving fast) in the window before it: at the click when there are
/// none or the cursor is still fast at the last one; else at the first
/// slow-down; else at the first sample.
pub open spec fn preroll_start(w: Seq<(u64, bool)>, click_ts: u64) -> u64 {
    if w.len() == 0 || w.last().1 {
        click_ts
    } else {
        match first_slowdown_from(w, 0) {
            Some(j) => min_u64(w[j + 1].0, click_ts),
            None => min_u64(w[0].0, click_ts),
        }
    }
}

/// When the camera starts moving towards a click at `click_ts`; `samples` are
/// the cursor's speed samples in time order, each with its time and whether
/// the cursor moved faster than the velocity threshold.
pub fn choose_preroll_start(click_ts: u64, samples: &Vec<(u64, bool)>, max_lookahead_ms: u64) -> (start: u64)
    ensures
        start == preroll_start(preroll_window(samples@, click_ts, max_lookahead_ms), click_ts),
{
    let la = if max_lookahead_ms > 1 { max_lookahead_ms } else { 1 };
    let ws = click_ts.saturating_sub(la);
    let ghost pred = |s: (u64, bool)| ws <= s.0 && s.0 <= click_ts;
    let mut w: Vec<(u64, bool)> = Vec::new();
    let mut i: usize = 0;
    while i < samples.len()
        invariant
            i <= samples.len(),
            pred == (|s: (u64, bool)| ws <= s.0 && s.0 <= click_ts),
            w@ == samples@.subrange(0, i as int).filter(pred),
        decreases samples.len() - i,
    {
        let sample = samples[i];
        proof {
            reveal(Seq::filter);
            assert(samples@.subrange(0, i + 1).drop_last() =~= samples@.subrange(0, i as int));
        }
        if ws <= sample.0 && sample.0 <= click_ts {
            w.push(sample);
        }
        i += 1;
    }
    assert(samples@.subrange(0, samples.len() as int) =~= samples@);
    assert(w@ == preroll_window(samples@, click_ts, max_lookahead_ms));
    if w.len() == 0 {
        return click_ts;
    }
    let last = w[w.len() - 1];
    if last.1 {
        return click_ts;
    }
    let mut j: usize = 0;
    while j + 1 < w.len()
        invariant
            j + 1 <= w.len(),
            w@.len() > 0 && !w@.last().1,
            w@ == preroll_window(samples@, click_ts, max_lookahead_ms),
            first_slowdown_from(w@, 0) == first_slowdown_from(w@, j as int),
        decreases w.len() - j,
    {
        if w[j].1 && !w[j + 1].1 {
            assert(slows_down_at(w@, j as int));
            assert(first_slowdown_from(w@, j as int) == Some(j as int));
            let t = w[j + 1].0;
            return if t < click_ts { t } else { click_ts };
        }
        assert(!slows_down_at(w@, j as int));
        j += 1;
    }
    assert(first_slowdown_from(w@, j as int) is None);
    let t = w[0].0;
    if t < click_ts { t } else { click_ts }
}

// ---------------------------------------------------------------------------
// Zoom transitions
// ---------------------------------------------------------------------------

pub open spec fn at_least_one(v: u64) -> u64 {
    if v > 1 { v } else { 1 }
}

/// Start of a zoom: its pre-roll start, pushed back so that it begins at least
/// `min_zoom_interval_ms` (and at least 1 ms) after the previous zoom's start.
pub open spec fn spaced_start(preroll: u64, last_start: Option<u64>, min_zoom_interval_ms: u64) -> u64 {
    match last_start {
        None => preroll,
        Some(last) => {
            let min_allowed = last.saturating_add(at_least_one(min_zoom_interval_ms));
            if preroll < min_allowed { min_allowed } else { preroll }
        },
    }
}

/// End of a zoom's lock: the cluster's end, but not before the least lock
/// duration (plus 250 ms for a multi-click cluster) after the cluster's start,
/// nor before the zoom starts.
pub open spec fn lock_end(cluster_start: u64, cluster_end: u64, click_count: usize, start: u64, min_lock_duration_ms: u64) -> u64 {
    let bonus: u64 = if click_count > 1 { 250 } else { 0 };
    let min_end = cluster_start.saturating_add(at_least_one(min_lock_duration_ms)).saturating_add(bonus);
    let e = if cluster_end > min_end { cluster_end } else { min_end };
    if e > start { e } else { start }
}

/// Start and lock end of the zoom onto a cluster.
pub fn zoom_transition_timing(
    preroll: u64,
    cluster_start: u64,
    cluster_end: u64,
    click_count: usize,
    last_start: Option<u64>,
    config: &ClickActivationConfig,
) -> (r: (u64, u64))
    ensures
        r.0 == spaced_start(preroll, last_start, config.min_zoom_interval_ms),
        r.1 == lock_end(cluster_start, cluster_end, click_count, r.0, config.min_lock_duration_ms),
{
    let mut start = preroll;
    if let Some(last) = last_start {
        let interval = if config.min_zoom_interval_ms > 1 { config.min_zoom_interval_ms } else { 1 };
        let min_allowed = last.saturating_add(interval);
        if start < min_allowed {
            start = min_allowed;
        }
    }
    let bonus: u64 = if click_count > 1 { 250 } else { 0 };
    let lock = if config.min_lock_duration_ms > 1 { config.min_lock_duration_ms } else { 1 };
    let min_end = cluster_start.saturating_add(lock).saturating_add(bonus);
    let e = if cluster_end > min_end { cluster_end } else { min_end };
    (start, if e > start { e } else { start })
}

/// The camera releases a lock at tick `ts` once the lock recent window has
/// passed after the lock's end.
pub fn lock_timed_out(ts: u64, lock_end_ts: u64, config: &ClickActivationConfig) -> (b: bool)
    ensures
        b == (ts > lock_end_ts.saturating_add(at_least_one(config.lock_recent_window_ms))),
{
    let w = if config.lock_recent_window_ms > 1 { config.lock_recent_window_ms } else { 1 };
    ts > lock_end_ts.saturating_add(w)
}

/// A scroll at `ts` starts a new scroll session: there was no scroll before,
/// or the last one is longer ago than the idle reset time.
pub fn scroll_session_restarts(ts: u64, last_scroll_ts: Option<u64>, config: &ClickActivationConfig) -> (b: bool)
    ensures
        b == match last_scroll_ts {
            None => true,
            Some(last) => ts.saturating_sub(last) > at_least_one(config.scroll_idle_reset_ms),
        },
{
    match last_scroll_ts {
        None => true,
        Some(last) => {
            let idle = if config.scroll_idle_reset_ms > 1 { config.scroll_idle_reset_ms } else { 1 };
            ts.saturating_sub(last) > idle
        },
    }
}

// ---------------------------------------------------------------------------
// Simulation ticks and segments
// ---------------------------------------------------------------------------

/// The tick after `t` when stepping by `step` towards `end`.
pub open spec fn next_tick(t: u64, step: u64, end: u64) -> int {
    if t + step >= end { end as int } else { t + step }
}

/// Tick times of the camera simulation over `duration_ms`: from 0 in steps of
/// `max(fixed_dt_ms, 1)`, the last tick falling exactly on the end.
pub fn camera_tick_times(duration_ms: u64, fixed_dt_ms: u64) -> (ticks: Vec<u64>)
    ensures
        duration_ms == 0 ==> ticks@.len() == 0,
        duration_ms > 0 ==> ticks@.len() > 0 && ticks@[0] == 0 && ticks@.last() == duration_ms,
        forall|k: int| 0 <= k < ticks@.len() - 1 ==> #[trigger] ticks@[k] < duration_ms
            && ticks@[k + 1] == next_tick(ticks@[k], at_least_one(fixed_dt_ms), duration_ms),
{
    let mut ticks: Vec<u64> = Vec::new();
    if duration_ms == 0 {
        return ticks;
    }
    let step = if fixed_dt_ms > 1 { fixed_dt_ms } else { 1 };
    let mut ts: u64 = 0;
    ticks.push(0);
    while ts < duration_ms
        invariant
            step == at_least_one(fixed_dt_ms),
            ts <= duration_ms,
            ticks@.len() > 0 && ticks@[0] == 0 && ticks@.last() == ts,
            forall|k: int| 0 <= k < ticks@.len() - 1 ==> #[trigger] ticks@[k] < duration_ms
                && ticks@[k + 1] == next_tick(ticks@[k], step, duration_ms),
        decreases duration_ms - ts,
    {
        let ghost old_t = ticks@;
        let stepped = ts.saturating_add(step);
        let nt = if stepped > duration_ms { duration_ms } else { stepped };
        ticks.push(nt);
        proof {
            assert forall|k: int| 0 <= k < ticks@.len() - 1 implies #[trigger] ticks@[k] < duration_ms
                && ticks@[k + 1] == next_tick(ticks@[k], step, duration_ms) by {
                if k < old_t.len() - 1 {
                    assert(ticks@[k] == old_t[k] && ticks@[k + 1] == old_t[k + 1]);
                } else {
                    assert(ticks@[k] == ts);
                }
            }
        }
        ts = nt;
    }
    ticks
}

/// The runs `[first, end)` of consecutive `true` flags, in order; every run is
/// as long as it can be.
pub fn locked_runs(flags: &Vec<bool>) -> (runs: Vec<(usize, usize)>)
    ensures
        forall|k: int| 0 <= k < runs@.len() ==> #[trigger] runs@[k].0 < runs@[k].1 && runs@[k].1 <= flags@.len(),
        forall|k: int, i: int| 0 <= k < runs@.len() && runs@[k].0 <= i < runs@[k].1 ==> #[trigger] flags@[i] && #[trigger] runs@[k] == runs@[k],
        forall|k: int| 0 <= k < runs@.len() ==> (#[trigger] runs@[k].0 == 0 || !flags@[runs@[k].0 - 1]),
        forall|k: int| 0 <= k < runs@.len() ==> (#[trigger] runs@[k].1 == flags@.len() || !flags@[runs@[k].1 as int]),
        forall|a: int, b: int| 0 <= a < b < runs@.len() ==> #[trigger] runs@[a].1 < #[trigger] runs@[b].0,
        forall|i: int| 0 <= i < flags@.len() && #[trigger] flags@[i] ==> exists|k: int| #![trigger runs@[k]] 0 <= k < runs@.len() && runs@[k].0 <= i < runs@[k].1,
{
    let n = flags.len();
    let mut runs: Vec<(usize, usize)> = Vec::new();
    let mut start: Option<usize> = None;
    let mut i: usize = 0;
    while i < n
        invariant
            n == flags.len(),
            i <= n,
            match start {
                Some(s) => s < i && (s == 0 || !flags@[s - 1]) && forall|j: int| s <= j < i ==> #[trigger] flags@[j],
                None => i == 0 || !flags@[i - 1],
            },
            forall|k: int| 0 <= k < runs@.len() ==> #[trigger] runs@[k].0 < runs@[k].1 && runs@[k].1 < i,
            forall|k: int, j: int| 0 <= k < runs@.len() && runs@[k].0 <= j < runs@[k].1 ==> #[trigger] flags@[j] && #[trigger] runs@[k] == runs@[k],
            forall|k: int| 0 <= k < runs@.len() ==> (#[trigger] runs@[k].0 == 0 || !flags@[runs@[k].0 - 1]),
            forall|k: int| 0 <= k < runs@.len() ==> !flags@[#[trigger] runs@[k].1 as int],
            forall|a: int, b: int| 0 <= a < b < runs@.len() ==> #[trigger] runs@[a].1 < #[trigger] runs@[b].0,
            runs@.len() > 0 ==> match start { Some(s) => runs@.last().1 < s, None => runs@.last().1 < i },
            forall|j: int| 0 <= j < i && #[trigger] flags@[j] ==> (exists|k: int| #![trigger runs@[k]] 0 <= k < runs@.len() && runs@[k].0 <= j < runs@[k].1)
                || (start is Some && start->0 <= j),
        decreases n - i,
    {
        if flags[i] {
            if start.is_none() {
                start = Some(i);
            }
        } else {
            match start {
                Some(s) => {
                    let ghost old_r = runs@;
                    runs.push((s, i));
                    proof {
                        assert forall|j: int| 0 <= j < i && #[trigger] flags@[j] implies (exists|k: int| #![trigger runs@[k]] 0 <= k < runs@.len() && runs@[k].0 <= j < runs@[k].1) by {
                            if s <= j {
                                assert(runs@[old_r.len() as int] == (s, i));
                            } else {
                                let k = choose|k: int| #![trigger old_r[k]] 0 <= k < old_r.len() && old_r[k].0 <= j < old_r[k].1;
                                assert(runs@[k] == old_r[k]);
                            }
                        }
                        assert forall|k: int, j: int| 0 <= k < runs@.len() && runs@[k].0 <= j < runs@[k].1 implies #[trigger] flags@[j] && #[trigger] runs@[k] == runs@[k] by {
                            if k < old_r.len() {
                                assert(runs@[k] == old_r[k]);
                            }
                        }
                    }
                    start = None;
                },
                None => {},
            }
        }
        i += 1;
    }
    match start {
        Some(s) => {
            let ghost old_r = runs@;
            runs.push((s, n));
            proof {
                assert forall|j: int| 0 <= j < n && #[trigger] flags@[j] implies exists|k: int| #![trigger runs@[k]] 0 <= k < runs@.len() && runs@[k].0 <= j < runs@[k].1 by {
                    if s <= j {
                        assert(runs@[old_r.len() as int] == (s, n));
                    } else {
                        let k = choose|k: int| #![trigger old_r[k]] 0 <= k < old_r.len() && old_r[k].0 <= j < old_r[k].1;
                        assert(runs@[k] == old_r[k]);
                    }
                }
                assert forall|k: int, j: int| 0 <= k < runs@.len() && runs@[k].0 <= j < runs@[k].1 implies #[trigger] flags@[j] && #[trigger] runs@[k] == runs@[k] by {
                    if k < old_r.len() {
                        assert(runs@[k] == old_r[k]);
                    }
                }
            }
        },
        None => {},
    }
    runs
}

/// Indices of the samples that become target points of a segment: the first,
/// the last, and every sample at least `step_ms` after the last one taken.
pub open spec fn target_sample_indices(ts: Seq<u64>, step_ms: u64, k: int) -> Seq<usize>
    decreases k,
{
    if k <= 0 {
        seq![]
    } else {
        let prev = target_sample_indices(ts, step_ms, k - 1);
        let i = k - 1;
        if i == 0 || i + 1 == ts.len() || ts[i].saturating_sub(ts[prev.last() as int]) >= step_ms {
            prev.push(i as usize)
        } else {
            prev
        }
    }
}

/// A locked run of ticks as a zoom segment: its start and end time and the
/// ticks whose targets become its target points. `ts` are the run's tick
/// times; `step_ms` is the least spacing of target points.
pub fn locked_segment_plan(ts: &Vec<u64>, step_ms: u64) -> (plan: (u64, u64, Vec<usize>))
    requires
        ts@.len() > 0,
    ensures
        plan.0 == ts@[0],
        plan.1 == (if ts@.last() > ts@[0].saturating_add(1) { ts@.last() } else { ts@[0].saturating_add(1) }),
        plan.2@ == target_sample_indices(ts@, step_ms, ts@.len() as int),
{
    let n = ts.len();
    let start = ts[0];
    let last = ts[n - 1];
    let min_end = start.saturating_add(1);
    let end = if last > min_end { last } else { min_end };
    let mut picked: Vec<usize> = Vec::new();
    let mut last_point_ts: u64 = 0;
    let mut i: usize = 0;
    while i < n
        invariant
            n == ts.len(),
            i <= n,
            picked@ == target_sample_indices(ts@, step_ms, i as int),
            i > 0 ==> picked@.len() > 0 && picked@.last() < i && last_point_ts == ts@[picked@.last() as int],
        decreases n - i,
    {
        proof {
            if i > 1 {
                let prev = target_sample_indices(ts@, step_ms, (i - 1) as int);
                assert(prev.len() > 0) by {
                    lemma_target_sample_indices_nonempty(ts@, step_ms, (i - 1) as int);
                }
            }
        }
        if i == 0 || i + 1 == n || ts[i].saturating_sub(last_point_ts) >= step_ms {
            picked.push(i);
            last_point_ts = ts[i];
        }
        i += 1;
    }
    (start, end, picked)
}

proof fn lemma_target_sample_indices_nonempty(ts: Seq<u64>, step_ms: u64, k: int)
    requires
        k >= 1,
    ensures
        target_sample_indices(ts, step_ms, k).len() > 0,
    decreases k,
{
    if k > 1 {
        lemma_target_sample_indices_nonempty(ts, step_ms, k - 1);
    }
}

/// The least spacing of a segment's target points.
pub fn segment_sample_step(config: &ClickActivationConfig) -> (s: u64)
    ensures
        s == at_least_one(if config.segment_target_sample_ms > config.fixed_dt_ms {
            config.segment_target_sample_ms
        } else {
            config.fixed_dt_ms
        }),
{
    let a = if config.segment_target_sample_ms > config.fixed_dt_ms { config.segment_target_sample_ms } else { config.fixed_dt_ms };
    if a > 1 { a } else { 1 }
}

/// Identifier of the `position`-th automatic segment (counting from 0):
/// `auto-1`, `auto-2`, ...
pub fn auto_segment_id(position: usize) -> (id: String)
    requires
        position < usize::MAX,
    ensures
        id@ == "auto-"@ + decimal((position + 1) as nat),
{
    let mut out: Vec<char> = Vec::new();
    push_str(&mut out, "auto-");
    push_decimal(&mut out, (position + 1) as u64);
    string_from_chars(out.as_slice())
}

// ---------------------------------------------------------------------------
// Laws
// ---------------------------------------------------------------------------

/// Two zooms never start closer together than the least zoom interval (at
/// least 1 ms): a start is pushed back to that distance after the previous
/// one, saturating at the end of time.
pub proof fn law_zoom_starts_are_spaced(preroll: u64, last_start: u64, min_zoom_interval_ms: u64)
    ensures
        spaced_start(preroll, Some(last_start), min_zoom_interval_ms) >= last_start.saturating_add(
            at_least_one(min_zoom_interval_ms),
        ),
        spaced_start(preroll, Some(last_start), min_zoom_interval_ms) >= preroll,
        spaced_start(preroll, None, min_zoom_interval_ms) == preroll,
{
}

/// A zoom's lock never ends before the zoom starts, nor before its cluster
/// ends.
pub proof fn law_lock_ends_after_start(cluster_start: u64, cluster_end: u64, click_count: usize, start: u64, min_lock_duration_ms: u64)
    ensures
        lock_end(cluster_start, cluster_end, click_count, start, min_lock_duration_ms) >= start,
        lock_end(cluster_start, cluster_end, click_count, start, min_lock_duration_ms) >= cluster_end,
{
}

proof fn lemma_clicks_sorted(order: Seq<usize>, evs: Seq<FocusInput>)
    requires
        forall|i: int| 0 <= i < order.len() ==> #[trigger] order[i] < evs.len(),
        forall|i: int, j: int| 0 <= i < j < order.len() ==> evs[#[trigger] order[i] as int].ts <= evs[#[trigger] order[j] as int].ts,
    ensures
        forall|k: int| 0 <= k < clicks_in(order, evs).len() ==> {
            let c = #[trigger] clicks_in(order, evs)[k];
            c.event_index < evs.len() && c.ts == evs[c.event_index as int].ts && evs[c.event_index as int].kind is Click
        },
        forall|a: int, b: int| 0 <= a < b < clicks_in(order, evs).len() ==>
            (#[trigger] clicks_in(order, evs)[a]).ts <= (#[trigger] clicks_in(order, evs)[b]).ts,
        order.len() > 0 ==> forall|k: int| 0 <= k < clicks_in(order, evs).len() ==>
            (#[trigger] clicks_in(order, evs)[k]).ts <= evs[order.last() as int].ts,
    decreases order.len(),
{
    if order.len() > 0 {
        let init = order.drop_last();
        lemma_clicks_sorted(init, evs);
        let rest = clicks_in(init, evs);
        let c = clicks_in(order, evs);
        let i = order.last();
        if init.len() > 0 {
            assert(evs[init.last() as int].ts <= evs[i as int].ts) by {
                assert(init.last() == order[order.len() - 2]);
            }
        }
        assert forall|k: int| 0 <= k < rest.len() implies (#[trigger] rest[k]).ts <= evs[i as int].ts by {
            if init.len() > 0 {
                assert(rest[k].ts <= evs[init.last() as int].ts);
            }
        }
        match evs[i as int].kind {
            FocusInputKind::Click => {
                assert forall|a: int, b: int| 0 <= a < b < c.len() implies (#[trigger] c[a]).ts <= (#[trigger] c[b]).ts by {
                    if b == c.len() - 1 {
                        assert(c[a] == rest[a]);
                    } else {
                        assert(c[a] == rest[a] && c[b] == rest[b]);
                    }
                }
                assert forall|k: int| 0 <= k < c.len() implies (#[trigger] c[k]).ts <= evs[i as int].ts by {
                    if k < c.len() - 1 {
                        assert(c[k] == rest[k]);
                    }
                }
                assert forall|k: int| 0 <= k < c.len() implies {
                    let x = #[trigger] c[k];
                    x.event_index < evs.len() && x.ts == evs[x.event_index as int].ts && evs[x.event_index as int].kind is Click
                } by {
                    if k < c.len() - 1 {
                        assert(c[k] == rest[k]);
                    }
                }
            },
            _ => {},
        }
    }
}

/// The clicks come in time order, each with its own event's time, and each
/// taken from a click event.
pub proof fn law_clicks_come_in_time_order(order: Seq<usize>, evs: Seq<FocusInput>)
    requires
        is_stable_order(order, event_times(evs)),
    ensures
        forall|a: int, b: int| 0 <= a < b < clicks_in(order, evs).len() ==>
            (#[trigger] clicks_in(order, evs)[a]).ts <= (#[trigger] clicks_in(order, evs)[b]).ts,
        forall|k: int| 0 <= k < clicks_in(order, evs).len() ==> {
            let c = #[trigger] clicks_in(order, evs)[k];
            c.event_index < evs.len() && c.ts == evs[c.event_index as int].ts && evs[c.event_index as int].kind is Click
        },
{
    assert forall|i: int, j: int| 0 <= i < j < order.len() implies evs[#[trigger] order[i] as int].ts <= evs[#[trigger] order[j] as int].ts by {
        assert(before(event_times(evs), order[i] as int, order[j] as int));
    }
    lemma_clicks_sorted(order, evs);
}

proof fn lemma_first_slowdown_in_range(w: Seq<(u64, bool)>, j: int)
    requires
        0 <= j,
    ensures
        first_slowdown_from(w, j) is Some ==> j <= first_slowdown_from(w, j)->0 && first_slowdown_from(w, j)->0 + 1 < w.len(),
    decreases w.len() - j,
{
    if j + 1 < w.len() && !slows_down_at(w, j) {
        lemma_first_slowdown_in_range(w, j + 1);
    }
}

/// The camera starts moving towards a click no later than the click and no
/// earlier than the look-ahead window before it.
pub proof fn law_preroll_within_lookahead(samples: Seq<(u64, bool)>, click_ts: u64, max_lookahead_ms: u64)
    ensures
        preroll_start(preroll_window(samples, click_ts, max_lookahead_ms), click_ts) <= click_ts,
        preroll_start(preroll_window(samples, click_ts, max_lookahead_ms), click_ts) >= click_ts.saturating_sub(
            at_least_one(max_lookahead_ms),
        ),
{
    let ws = click_ts.saturating_sub(at_least_one(max_lookahead_ms));
    let pred = |s: (u64, bool)| ws <= s.0 && s.0 <= click_ts;
    let w = preroll_window(samples, click_ts, max_lookahead_ms);
    assert(w == samples.filter(pred));
    samples.filter_lemma(pred);
    if w.len() > 0 && !w.last().1 {
        lemma_first_slowdown_in_range(w, 0);
        match first_slowdown_from(w, 0) {
            Some(j) => {
                assert(pred(w[j + 1]));
            },
            None => {
                assert(pred(w[0]));
            },
        }
    }
}

// ---------------------------------------------------------------------------
// The activation window, stated directly
// ---------------------------------------------------------------------------

/// Click `idx` and the `min_clicks - 1` clicks just before it all lie at or
/// after `max(window_ms, 1)` milliseconds before click `idx`.
pub open spec fn clicks_within_window(ts: Seq<u64>, idx: int, window_ms: u64, min_clicks: usize) -> bool {
    &&& idx + 1 >= min_clicks
    &&& forall|j: int| idx + 1 - min_clicks <= j <= idx ==> #[trigger] ts[j] >= ts[idx] - (if window_ms > 1 { window_ms } else { 1 })
}

proof fn lemma_run_start(ts: Seq<u64>, idx: int, ws: int)
    requires
        0 <= idx < ts.len(),
    ensures
        0 <= run_start(ts, idx, ws) <= idx,
        forall|j: int| run_start(ts, idx, ws) <= j < idx ==> #[trigger] ts[j] >= ws,
        run_start(ts, idx, ws) > 0 ==> ts[run_start(ts, idx, ws) - 1] < ws,
    decreases idx,
{
    if idx > 0 && ts[idx - 1] >= ws {
        lemma_run_start(ts, idx - 1, ws);
    }
}

proof fn lemma_completes_activation(ts: Seq<u64>, idx: int, window_ms: u64, min_clicks: usize)
    requires
        0 <= idx < ts.len(),
    ensures
        completes_activation(ts, idx, window_ms, min_clicks) <==> clicks_within_window(ts, idx, window_ms, min_clicks),
{
    let w: u64 = if window_ms > 1 { window_ms } else { 1 };
    let ws = ts[idx].saturating_sub(w);
    assert(ws as int == if ts[idx] >= w { ts[idx] - w } else { 0 });
    lemma_run_start(ts, idx, ws as int);
    let rs = run_start(ts, idx, ws as int);
    if completes_activation(ts, idx, window_ms, min_clicks) {
        assert forall|j: int| idx + 1 - min_clicks <= j <= idx implies #[trigger] ts[j] >= ts[idx] - w by {
            if j < idx {
                assert(ts[j] >= ws);
            }
        }
    }
    if clicks_within_window(ts, idx, window_ms, min_clicks) && rs > idx + 1 - min_clicks {
        assert(ts[rs - 1] >= ts[idx] - w);
        assert(false);
    }
}

proof fn lemma_indices_where(n: int, p: spec_fn(int) -> bool)
    requires
        n <= usize::MAX + 1,
    ensures
        forall|k: usize| #[trigger] indices_where(n, p).contains(k) ==> k < n,
        forall|i: int| 0 <= i < n ==> (#[trigger] indices_where(n, p).contains(i as usize) <==> p(i)),
    decreases n,
{
    if n > 0 {
        lemma_indices_where(n - 1, p);
        let prev = indices_where(n - 1, p);
        if p(n - 1) {
            assert forall|k: usize| #[trigger] indices_where(n, p).contains(k) implies k < n by {
                let j = choose|j: int| 0 <= j < indices_where(n, p).len() && indices_where(n, p)[j] == k;
                if j < prev.len() {
                    assert(prev.contains(prev[j]));
                }
            }
            assert forall|i: int| 0 <= i < n implies (#[trigger] indices_where(n, p).contains(i as usize) <==> p(i)) by {
                let s = indices_where(n, p);
                if i < n - 1 {
                    if s.contains(i as usize) {
                        let j = choose|j: int| 0 <= j < s.len() && s[j] == i as usize;
                        if j < prev.len() {
                            assert(prev.contains(prev[j]));
                        }
                    }
                    if prev.contains(i as usize) {
                        let j = choose|j: int| 0 <= j < prev.len() && prev[j] == i as usize;
                        assert(s[j] == i as usize);
                    }
                } else {
                    assert(s[s.len() - 1] == (n - 1) as usize);
                }
            }
        }
    }
}

/// Law of the activation window: a click is kept exactly when it completes an
/// activation (it and the `min_clicks - 1` clicks before it lie within
/// `max(window_ms, 1)` ms before it), or when the next click completes one
/// and follows it by at most `max(rapid_gap_ms, 1)` ms.
pub proof fn law_activation_window(ts: Seq<u64>, window_ms: u64, min_clicks: usize, rapid_gap_ms: u64, idx: int)
    requires
        ts.len() <= usize::MAX,
        ts.len() >= (if min_clicks > 1 { min_clicks } else { 1 }),
        0 <= idx < ts.len(),
    ensures
        indices_where(ts.len() as int, |i: int| activation_selected(ts, i, window_ms, min_clicks, rapid_gap_ms)).contains(
            idx as usize,
        ) <==> ({
            ||| clicks_within_window(ts, idx, window_ms, min_clicks)
            ||| (idx + 1 < ts.len() && clicks_within_window(ts, idx + 1, window_ms, min_clicks) && ts[idx + 1] - ts[idx]
                <= (if rapid_gap_ms > 1 { rapid_gap_ms } else { 1 }))
        }),
{
    let p = |i: int| activation_selected(ts, i, window_ms, min_clicks, rapid_gap_ms);
    lemma_indices_where(ts.len() as int, p);
    assert(indices_where(ts.len() as int, p).contains(idx as usize) <==> p(idx));
    lemma_completes_activation(ts, idx, window_ms, min_clicks);
    if idx + 1 < ts.len() {
        lemma_completes_activation(ts, idx + 1, window_ms, min_clicks);
    }
}

/// Law of the two-clicks-in-a-window mode: with `min_clicks` of 2, a click
/// that follows the one before it by at least 1 ms and at most
/// `max(window_ms, 1)` ms is kept.
pub proof fn law_second_click_in_window_zooms(ts: Seq<u64>, window_ms: u64, rapid_gap_ms: u64, idx: int)
    requires
        ts.len() <= usize::MAX,
        1 <= idx < ts.len(),
        ts[idx - 1] <= ts[idx],
        ts[idx] - ts[idx - 1] <= (if window_ms > 1 { window_ms } else { 1 }),
    ensures
        indices_where(ts.len() as int, |i: int| activation_selected(ts, i, window_ms, 2, rapid_gap_ms)).contains(
            idx as usize,
        ),
{
    law_activation_window(ts, window_ms, 2, rapid_gap_ms, idx);
    assert(clicks_within_window(ts, idx, window_ms, 2));
}

} // verus!
