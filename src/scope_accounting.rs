use vstd::prelude::*;

use crate::profiler::{
    empty_anchor, enter_step, exit_step, fresh_profiler, Anchor, MarkView, ProfilerView,
    ANCHOR_COUNT,
};

verus! {

/// One call made on a profiling session: entering scope `idx` at tick `at`,
/// or leaving the innermost open scope at tick `at`.
pub enum ScopeEvent {
    Enter { idx: u32, bytes: u64, at: u64 },
    Exit { at: u64 },
}

pub open spec fn event_time(e: ScopeEvent) -> u64 {
    match e {
        ScopeEvent::Enter { at, .. } => at,
        ScopeEvent::Exit { at } => at,
    }
}

/// Tick of the last call, or of the session's start when there was none.
pub open spec fn last_time(t0: u64, events: Seq<ScopeEvent>) -> u64 {
    if events.len() == 0 {
        t0
    } else {
        event_time(events.last())
    }
}

/// The session and its stack of open marks after `events`, each exit
/// closing the innermost open mark.
pub open spec fn replay(p: ProfilerView, open: Seq<MarkView>, events: Seq<ScopeEvent>) -> (
    ProfilerView,
    Seq<MarkView>,
)
    decreases events.len(),
{
    if events.len() == 0 {
        (p, open)
    } else {
        let (q, o) = replay(p, open, events.drop_last());
        match events.last() {
            ScopeEvent::Enter { idx, bytes, at } => {
                let (q2, m) = enter_step(q, idx, bytes, at);
                (q2, o.push(m))
            },
            ScopeEvent::Exit { at } => {
                if o.len() > 0 {
                    (exit_step(q, o.last(), at), o.drop_last())
                } else {
                    (q, o)
                }
            },
        }
    }
}

/// A session started at tick `t0`, after `events`.
pub open spec fn session_after(t0: u64, events: Seq<ScopeEvent>) -> (ProfilerView, Seq<MarkView>) {
    replay(fresh_profiler(t0), Seq::empty(), events)
}

pub open spec fn is_open(open: Seq<MarkView>, idx: u32) -> bool {
    exists|k: int| 0 <= k < open.len() && (#[trigger] open[k]).idx == idx
}

/// The calls keep the profiler's discipline: ticks never go back, every
/// exit has an open scope to close, labels are real ones (not the root 0),
/// and no label is entered again while it is open.
pub open spec fn disciplined(t0: u64, events: Seq<ScopeEvent>) -> bool
    decreases events.len(),
{
    if events.len() == 0 {
        true
    } else {
        let prev = events.drop_last();
        let open = session_after(t0, prev).1;
        &&& disciplined(t0, prev)
        &&& event_time(events.last()) >= last_time(t0, prev)
        &&& match events.last() {
            ScopeEvent::Enter { idx, .. } => 0 < idx < ANCHOR_COUNT && !is_open(open, idx),
            ScopeEvent::Exit { .. } => open.len() > 0,
        }
    }
}

/// Label `label` is entered only when no scope is open.
pub open spec fn top_level_only(t0: u64, events: Seq<ScopeEvent>, label: u32) -> bool
    decreases events.len(),
{
    if events.len() == 0 {
        true
    } else {
        let prev = events.drop_last();
        &&& top_level_only(t0, prev, label)
        &&& match events.last() {
            ScopeEvent::Enter { idx, .. } => idx == label ==> session_after(t0, prev).1.len()
                == 0,
            ScopeEvent::Exit { .. } => true,
        }
    }
}

/// Sum of the inclusive times of `labels`.
pub open spec fn sum_inclusive(anchors: Seq<Anchor>, labels: Seq<u32>) -> int
    decreases labels.len(),
{
    if labels.len() == 0 {
        0
    } else {
        sum_inclusive(anchors, labels.drop_last()) + anchors[labels.last() as int].inclusive
    }
}

/// `x` as a 64-bit counter, for `-2^64 < x < 2^64`.
pub open spec fn wrap(x: int) -> u64 {
    if x < 0 {
        (x + 0x1_0000_0000_0000_0000) as u64
    } else {
        x as u64
    }
}

/// Tick up to which the nested scopes of level `k` have been closed.
pub open spec fn level_bound(open: Seq<MarkView>, t: int, k: int) -> int {
    if k + 1 < open.len() {
        open[k + 1].start as int
    } else {
        t
    }
}

pub open spec fn root_bound(open: Seq<MarkView>, t: int) -> int {
    if open.len() > 0 {
        open[0].start as int
    } else {
        t
    }
}

/// The stack of open marks is a chain: real labels, each mark's parent the
/// label below it (the root 0 for the first), no label twice.
#[verifier::opaque]
pub open spec fn chain_ok(open: Seq<MarkView>) -> bool {
    &&& forall|k: int| 0 <= k < open.len() ==> 0 < (#[trigger] open[k]).idx < ANCHOR_COUNT
    &&& forall|k: int|
        0 <= k < open.len() ==> (#[trigger] open[k]).parent == (if k == 0 {
            0
        } else {
            open[k - 1].idx
        })
    &&& forall|j: int, k: int| 0 <= j < k < open.len() ==> open[j].idx != open[k].idx
}

/// Each open scope: entered in order, its inclusive time untouched since
/// entry, and its exclusive time `xs[k]` (unwrapped) down by at most the
/// ticks its nested scopes have run.
#[verifier::opaque]
pub open spec fn levels_ok(
    t0: u64,
    p: ProfilerView,
    open: Seq<MarkView>,
    t: int,
    xs: Seq<int>,
    tops: Seq<u32>,
) -> bool {
    forall|k: int|
        0 <= k < open.len() ==> {
            let m = #[trigger] open[k];
            let a = p.anchors[m.idx as int];
            &&& t0 <= m.start <= level_bound(open, t, k)
            &&& a.inclusive == m.self_inclusive
            &&& m.self_inclusive <= m.start - t0
            &&& -(level_bound(open, t, k) - m.start) <= xs[k] <= m.self_inclusive
            &&& a.exclusive == wrap(xs[k])
            &&& tops.contains(m.idx) ==> k == 0
        }
}

/// Every scope that is not open has `exclusive <= inclusive <= t - t0`.
#[verifier::opaque]
pub open spec fn closed_ok(t0: u64, p: ProfilerView, open: Seq<MarkView>, t: int) -> bool {
    forall|a: int|
        0 < a < ANCHOR_COUNT && !is_open(open, a as u32) ==> #[trigger] p.anchors[a].exclusive
            <= p.anchors[a].inclusive <= t - t0
}

/// What holds of a session between calls, at last tick `t`. `xs[k]` is the
/// exclusive time of the scope open at level `k` without wrapping (it may be
/// negative while nested scopes have been charged to it), and `xroot` that of
/// the root.
pub open spec fn accounting(
    t0: u64,
    p: ProfilerView,
    open: Seq<MarkView>,
    t: int,
    xroot: int,
    xs: Seq<int>,
    tops: Seq<u32>,
) -> bool {
    &&& p.valid()
    &&& p.root_start == t0
    &&& t0 <= t <= u64::MAX
    &&& p.current == (if open.len() == 0 {
        0
    } else {
        open.last().idx
    })
    &&& xs.len() == open.len()
    &&& chain_ok(open)
    &&& levels_ok(t0, p, open, t, xs, tops)
    &&& -(root_bound(open, t) - t0) <= xroot <= 0
    &&& p.anchors[0].exclusive == wrap(xroot)
    &&& closed_ok(t0, p, open, t)
    &&& forall|i: int| 0 <= i < tops.len() ==> #[trigger] tops[i] < ANCHOR_COUNT
    &&& sum_inclusive(p.anchors, tops) <= -xroot
}

proof fn lemma_sum_inclusive_update(anchors: Seq<Anchor>, labels: Seq<u32>, idx: u32, new: Anchor)
    requires
        labels.no_duplicates(),
        idx < anchors.len(),
        forall|i: int| 0 <= i < labels.len() ==> #[trigger] labels[i] < anchors.len(),
    ensures
        sum_inclusive(anchors.update(idx as int, new), labels) == sum_inclusive(anchors, labels) + (
        if labels.contains(idx) {
            new.inclusive - anchors[idx as int].inclusive
        } else {
            0
        }),
    decreases labels.len(),
{
    if labels.len() > 0 {
        let prev = labels.drop_last();
        assert(prev.no_duplicates()) by {
            assert forall|i: int, j: int| 0 <= i < j < prev.len() implies prev[i] != prev[j] by {
                assert(prev[i] == labels[i] && prev[j] == labels[j]);
            }
        }
        assert forall|i: int| 0 <= i < prev.len() implies #[trigger] prev[i] < anchors.len() by {
            assert(prev[i] == labels[i]);
        }
        lemma_sum_inclusive_update(anchors, prev, idx, new);
        assert(labels[labels.len() - 1] < anchors.len());
        let l = labels.last();
        if labels.contains(idx) {
            let w = choose|w: int| 0 <= w < labels.len() && labels[w] == idx;
            if l == idx {
                if prev.contains(idx) {
                    let v = choose|v: int| 0 <= v < prev.len() && prev[v] == idx;
                    assert(labels[v] == labels[labels.len() - 1]);
                }
            } else {
                assert(w != labels.len() - 1);
                assert(prev[w] == idx);
            }
        } else {
            if prev.contains(idx) {
                let v = choose|v: int| 0 <= v < prev.len() && prev[v] == idx;
                assert(labels[v] == idx);
            }
            assert(l != idx) by {
                if l == idx {
                    assert(labels[labels.len() - 1] == idx);
                }
            }
        }
    }
}

proof fn lemma_sum_inclusive_zero(anchors: Seq<Anchor>, labels: Seq<u32>)
    requires
        forall|i: int| 0 <= i < labels.len() ==> anchors[#[trigger] labels[i] as int].inclusive
            == 0,
    ensures
        sum_inclusive(anchors, labels) == 0,
    decreases labels.len(),
{
    if labels.len() > 0 {
        let prev = labels.drop_last();
        assert forall|i: int| 0 <= i < prev.len() implies anchors[#[trigger] prev[i] as int].inclusive
            == 0 by {
            assert(prev[i] == labels[i]);
        }
        lemma_sum_inclusive_zero(anchors, prev);
        assert(anchors[labels[labels.len() - 1] as int].inclusive == 0);
    }
}

proof fn lemma_accounting_start(t0: u64, tops: Seq<u32>)
    requires
        forall|i: int| 0 <= i < tops.len() ==> #[trigger] tops[i] < ANCHOR_COUNT,
    ensures
        accounting(t0, fresh_profiler(t0), Seq::empty(), t0 as int, 0, Seq::empty(), tops),
{
    reveal(chain_ok);
    reveal(levels_ok);
    reveal(closed_ok);
    let p = fresh_profiler(t0);
    assert forall|i: int| 0 <= i < tops.len() implies p.anchors[#[trigger] tops[i] as int].inclusive
        == 0 by {
        if 0 <= tops[i] < ANCHOR_COUNT {
            assert(p.anchors[tops[i] as int] == empty_anchor());
        }
    }
    lemma_sum_inclusive_zero(p.anchors, tops);
    assert(p.anchors[0] == empty_anchor());
    assert forall|a: int|
        0 < a < ANCHOR_COUNT && !is_open(Seq::<MarkView>::empty(), a as u32) implies #[trigger] p.anchors[a].exclusive
        <= p.anchors[a].inclusive <= t0 - t0 by {
        assert(p.anchors[a] == empty_anchor());
    }
}

proof fn lemma_chain_push(open: Seq<MarkView>, m: MarkView)
    requires
        chain_ok(open),
        0 < m.idx < ANCHOR_COUNT,
        m.parent == (if open.len() == 0 {
            0
        } else {
            open.last().idx
        }),
        !is_open(open, m.idx),
    ensures
        chain_ok(open.push(m)),
{
    reveal(chain_ok);
    let o2 = open.push(m);
    let n = open.len();
    assert forall|k: int| 0 <= k < o2.len() implies 0 < (#[trigger] o2[k]).idx < ANCHOR_COUNT by {
        if k < n {
            assert(o2[k] == open[k]);
        }
    }
    assert forall|k: int| 0 <= k < o2.len() implies (#[trigger] o2[k]).parent == (if k == 0 {
        0
    } else {
        o2[k - 1].idx
    }) by {
        if k < n {
            assert(o2[k] == open[k]);
            if k > 0 {
                assert(o2[k - 1] == open[k - 1]);
            }
        } else if k > 0 {
            assert(o2[k - 1] == open[n - 1]);
        }
    }
    assert forall|j: int, k: int| 0 <= j < k < o2.len() implies o2[j].idx != o2[k].idx by {
        assert(o2[j] == open[j]);
        if k < n {
            assert(o2[k] == open[k]);
        } else {
            assert(open[j].idx != m.idx);
        }
    }
}

proof fn lemma_levels_enter(
    t0: u64,
    p: ProfilerView,
    q: ProfilerView,
    open: Seq<MarkView>,
    t: int,
    xs: Seq<int>,
    tops: Seq<u32>,
    m: MarkView,
)
    requires
        levels_ok(t0, p, open, t, xs, tops),
        xs.len() == open.len(),
        t <= m.start,
        t0 <= m.start,
        !is_open(open, m.idx),
        tops.contains(m.idx) ==> open.len() == 0,
        forall|c: int|
            0 <= c < ANCHOR_COUNT && c != m.idx ==> (#[trigger] q.anchors[c]) == p.anchors[c],
        q.anchors[m.idx as int].inclusive == m.self_inclusive,
        q.anchors[m.idx as int].exclusive == p.anchors[m.idx as int].exclusive,
        p.anchors[m.idx as int].exclusive <= m.self_inclusive <= m.start - t0,
        forall|k: int| 0 <= k < open.len() ==> 0 <= (#[trigger] open[k]).idx < ANCHOR_COUNT,
    ensures
        levels_ok(
            t0,
            q,
            open.push(m),
            m.start as int,
            xs.push(p.anchors[m.idx as int].exclusive as int),
            tops,
        ),
{
    reveal(levels_ok);
    let o2 = open.push(m);
    let xs2 = xs.push(p.anchors[m.idx as int].exclusive as int);
    let n = open.len();
    let at = m.start as int;
    assert forall|k: int| 0 <= k < o2.len() implies {
        let mk = #[trigger] o2[k];
        let a = q.anchors[mk.idx as int];
        &&& t0 <= mk.start <= level_bound(o2, at, k)
        &&& a.inclusive == mk.self_inclusive
        &&& mk.self_inclusive <= mk.start - t0
        &&& -(level_bound(o2, at, k) - mk.start) <= xs2[k] <= mk.self_inclusive
        &&& a.exclusive == wrap(xs2[k])
        &&& tops.contains(mk.idx) ==> k == 0
    } by {
        if k < n {
            let mk = open[k];
            assert(o2[k] == mk);
            assert(xs2[k] == xs[k]);
            assert(mk.idx != m.idx);
            assert(q.anchors[mk.idx as int] == p.anchors[mk.idx as int]);
            assert(t0 <= mk.start <= level_bound(open, t, k));
            if k + 1 < n {
                assert(o2[k + 1] == open[k + 1]);
            } else {
                assert(o2[k + 1] == m);
            }
        } else {
            assert(o2[k] == m);
            assert(xs2[k] == p.anchors[m.idx as int].exclusive as int);
        }
    }
}

proof fn lemma_closed_enter(
    t0: u64,
    p: ProfilerView,
    q: ProfilerView,
    open: Seq<MarkView>,
    t: int,
    at: int,
    m: MarkView,
)
    requires
        closed_ok(t0, p, open, t),
        t <= at,
        forall|c: int|
            0 <= c < ANCHOR_COUNT && c != m.idx ==> (#[trigger] q.anchors[c]) == p.anchors[c],
    ensures
        closed_ok(t0, q, open.push(m), at),
{
    reveal(closed_ok);
    let o2 = open.push(m);
    let n = open.len();
    assert forall|a: int|
        0 < a < ANCHOR_COUNT && !is_open(o2, a as u32) implies #[trigger] q.anchors[a].exclusive
        <= q.anchors[a].inclusive <= at - t0 by {
        assert(a != m.idx) by {
            if a == m.idx {
                assert(o2[n as int].idx == m.idx);
            }
        }
        assert(!is_open(open, a as u32)) by {
            if is_open(open, a as u32) {
                let k = choose|k: int| 0 <= k < open.len() && (#[trigger] open[k]).idx == a as u32;
                assert(o2[k] == open[k]);
            }
        }
        assert(q.anchors[a] == p.anchors[a]);
        assert(p.anchors[a].exclusive <= p.anchors[a].inclusive <= t - t0);
    }
}

proof fn lemma_accounting_enter(
    t0: u64,
    p: ProfilerView,
    open: Seq<MarkView>,
    t: int,
    xroot: int,
    xs: Seq<int>,
    tops: Seq<u32>,
    idx: u32,
    bytes: u64,
    at: u64,
)
    requires
        accounting(t0, p, open, t, xroot, xs, tops),
        tops.no_duplicates(),
        at >= t,
        0 < idx < ANCHOR_COUNT,
        !is_open(open, idx),
        tops.contains(idx) ==> open.len() == 0,
    ensures
        ({
            let (q, m) = enter_step(p, idx, bytes, at);
            accounting(
                t0,
                q,
                open.push(m),
                at as int,
                xroot,
                xs.push(p.anchors[idx as int].exclusive as int),
                tops,
            )
        }),
{
    let (q, m) = enter_step(p, idx, bytes, at);
    let o2 = open.push(m);
    let n = open.len();
    let old_a = p.anchors[idx as int];
    assert(old_a.exclusive <= old_a.inclusive <= t - t0) by {
        reveal(closed_ok);
    }
    assert forall|k: int| 0 <= k < open.len() implies 0 <= (#[trigger] open[k]).idx
        < ANCHOR_COUNT by {
        reveal(chain_ok);
    }
    if n > 0 {
        assert(open.last() == open[n - 1]);
    }
    lemma_chain_push(open, m);
    lemma_sum_inclusive_update(p.anchors, tops, idx, q.anchors[idx as int]);
    assert(q.anchors =~= p.anchors.update(idx as int, q.anchors[idx as int]));
    assert forall|c: int| 0 <= c < ANCHOR_COUNT && c != idx implies (#[trigger] q.anchors[c])
        == p.anchors[c] by {}
    lemma_levels_enter(t0, p, q, open, t, xs, tops, m);
    lemma_closed_enter(t0, p, q, open, t, at as int, m);
    if n > 0 {
        assert(o2[0] == open[0]);
    }
    assert(q.anchors[0] == p.anchors[0]);
}

proof fn lemma_wrap_add(x: int, e: int)
    requires
        -0x1_0000_0000_0000_0000 < x,
        0 <= e <= u64::MAX,
        0 <= x + e <= u64::MAX,
    ensures
        wrap(x).wrapping_add(e as u64) == x + e,
{
}

proof fn lemma_wrap_sub(x: int, e: int)
    requires
        -0x1_0000_0000_0000_0000 < x - e,
        x <= u64::MAX,
        0 <= e <= u64::MAX,
    ensures
        wrap(x).wrapping_sub(e as u64) == wrap(x - e),
{
}

proof fn lemma_chain_pop(open: Seq<MarkView>)
    requires
        chain_ok(open),
        open.len() > 0,
    ensures
        chain_ok(open.drop_last()),
        0 < open.last().idx < ANCHOR_COUNT,
        open.last().parent == (if open.len() == 1 {
            0
        } else {
            open[open.len() - 2].idx
        }),
        forall|k: int| 0 <= k < open.len() - 1 ==> (#[trigger] open[k]).idx != open.last().idx,
        open.len() > 1 ==> 0 < open[open.len() - 2].idx < ANCHOR_COUNT,
        open.len() > 1 ==> forall|k: int|
            0 <= k < open.len() - 2 ==> (#[trigger] open[k]).idx != open[open.len() - 2].idx,
{
    reveal(chain_ok);
    let o2 = open.drop_last();
    let n = open.len();
    assert(open.last() == open[n - 1]);
    assert forall|k: int| 0 <= k < o2.len() implies 0 < (#[trigger] o2[k]).idx < ANCHOR_COUNT by {
        assert(o2[k] == open[k]);
    }
    assert forall|k: int| 0 <= k < o2.len() implies (#[trigger] o2[k]).parent == (if k == 0 {
        0
    } else {
        o2[k - 1].idx
    }) by {
        assert(o2[k] == open[k]);
        if k > 0 {
            assert(o2[k - 1] == open[k - 1]);
        }
    }
    assert forall|j: int, k: int| 0 <= j < k < o2.len() implies o2[j].idx != o2[k].idx by {
        assert(o2[j] == open[j]);
        assert(o2[k] == open[k]);
    }
    assert forall|k: int| 0 <= k < open.len() - 1 implies (#[trigger] open[k]).idx
        != open.last().idx by {
        assert(open[k].idx != open[n - 1].idx);
    }
    if n > 1 {
        assert forall|k: int| 0 <= k < open.len() - 2 implies (#[trigger] open[k]).idx
            != open[open.len() - 2].idx by {
            assert(open[k].idx != open[n - 2].idx);
        }
    }
}

/// Facts about the two innermost open scopes.
proof fn lemma_levels_top(
    t0: u64,
    p: ProfilerView,
    open: Seq<MarkView>,
    t: int,
    xs: Seq<int>,
    tops: Seq<u32>,
)
    requires
        levels_ok(t0, p, open, t, xs, tops),
        open.len() > 0,
    ensures
        ({
            let n = open.len();
            let m = open.last();
            let a = p.anchors[m.idx as int];
            &&& t0 <= m.start <= t
            &&& a.inclusive == m.self_inclusive
            &&& m.self_inclusive <= m.start - t0
            &&& -(t - m.start) <= xs[n - 1] <= m.self_inclusive
            &&& a.exclusive == wrap(xs[n - 1])
            &&& tops.contains(m.idx) ==> n == 1
        }),
        open.len() > 1 ==> ({
            let n = open.len();
            let m = open[n - 2];
            let a = p.anchors[m.idx as int];
            &&& t0 <= m.start <= open[n - 1].start
            &&& -(open[n - 1].start - m.start) <= xs[n - 2] <= m.self_inclusive
            &&& a.exclusive == wrap(xs[n - 2])
        }),
{
    reveal(levels_ok);
    let n = open.len();
    assert(open.last() == open[n - 1]);
    let m = open[n - 1];
    assert(t0 <= m.start <= level_bound(open, t, n - 1));
    if n > 1 {
        let m2 = open[n - 2];
        assert(t0 <= m2.start <= level_bound(open, t, n - 2));
    }
}

proof fn lemma_levels_exit(
    t0: u64,
    p: ProfilerView,
    q: ProfilerView,
    open: Seq<MarkView>,
    t: int,
    at: int,
    xs: Seq<int>,
    xs2: Seq<int>,
    tops: Seq<u32>,
)
    requires
        levels_ok(t0, p, open, t, xs, tops),
        chain_ok(open),
        open.len() > 0,
        t <= at,
        xs.len() == open.len(),
        xs2.len() == open.len() - 1,
        forall|k: int| 0 <= k < open.len() - 2 ==> xs2[k] == xs[k],
        forall|c: int|
            0 <= c < ANCHOR_COUNT && c != open.last().idx && c != open.last().parent ==> (
            #[trigger] q.anchors[c]) == p.anchors[c],
        open.len() > 1 ==> ({
            let n = open.len();
            let pm = open[n - 2];
            let e = at - open[n - 1].start;
            &&& xs2[n - 2] == xs[n - 2] - e
            &&& q.anchors[pm.idx as int].exclusive == wrap(xs2[n - 2])
            &&& q.anchors[pm.idx as int].inclusive == p.anchors[pm.idx as int].inclusive
        }),
    ensures
        levels_ok(t0, q, open.drop_last(), at, xs2, tops),
{
    reveal(levels_ok);
    reveal(chain_ok);
    let n = open.len();
    let o2 = open.drop_last();
    assert(open.last() == open[n - 1]);
    assert forall|k: int| 0 <= k < o2.len() implies {
        let mk = #[trigger] o2[k];
        let c = q.anchors[mk.idx as int];
        &&& t0 <= mk.start <= level_bound(o2, at, k)
        &&& c.inclusive == mk.self_inclusive
        &&& mk.self_inclusive <= mk.start - t0
        &&& -(level_bound(o2, at, k) - mk.start) <= xs2[k] <= mk.self_inclusive
        &&& c.exclusive == wrap(xs2[k])
        &&& tops.contains(mk.idx) ==> k == 0
    } by {
        let mk = open[k];
        assert(o2[k] == mk);
        assert(mk.idx != open[n - 1].idx);
        assert(t0 <= mk.start <= level_bound(open, t, k));
        assert(open[n - 1].parent == open[n - 2].idx);
        if k + 1 < o2.len() {
            assert(o2[k + 1] == open[k + 1]);
            assert(mk.idx != open[n - 2].idx);
            assert(q.anchors[mk.idx as int] == p.anchors[mk.idx as int]);
        } else {
            assert(k == n - 2);
            assert(open[n - 1].start <= t);
        }
    }
}

proof fn lemma_closed_exit(
    t0: u64,
    p: ProfilerView,
    q: ProfilerView,
    open: Seq<MarkView>,
    t: int,
    at: int,
)
    requires
        closed_ok(t0, p, open, t),
        chain_ok(open),
        open.len() > 0,
        t <= at,
        forall|c: int|
            0 <= c < ANCHOR_COUNT && c != open.last().idx && c != open.last().parent ==> (
            #[trigger] q.anchors[c]) == p.anchors[c],
        q.anchors[open.last().idx as int].exclusive <= q.anchors[open.last().idx as int].inclusive
            <= at - t0,
    ensures
        closed_ok(t0, q, open.drop_last(), at),
{
    reveal(closed_ok);
    reveal(chain_ok);
    let n = open.len();
    let o2 = open.drop_last();
    assert(open.last() == open[n - 1]);
    assert forall|c: int|
        0 < c < ANCHOR_COUNT && !is_open(o2, c as u32) implies #[trigger] q.anchors[c].exclusive
        <= q.anchors[c].inclusive <= at - t0 by {
        if c != open[n - 1].idx {
            assert(c != open[n - 1].parent) by {
                if c == open[n - 1].parent {
                    assert(n > 1);
                    assert(open[n - 1].parent == open[n - 2].idx);
                    assert(o2[n - 2] == open[n - 2]);
                    assert(o2[n - 2].idx == c as u32);
                }
            }
            assert(!is_open(open, c as u32)) by {
                if is_open(open, c as u32) {
                    let k = choose|k: int| 0 <= k < open.len() && (#[trigger] open[k]).idx == c as u32;
                    if k < n - 1 {
                        assert(o2[k] == open[k]);
                    }
                }
            }
            assert(q.anchors[c] == p.anchors[c]);
            assert(p.anchors[c].exclusive <= p.anchors[c].inclusive <= t - t0);
        }
    }
}

proof fn lemma_accounting_exit(
    t0: u64,
    p: ProfilerView,
    open: Seq<MarkView>,
    t: int,
    xroot: int,
    xs: Seq<int>,
    tops: Seq<u32>,
    at: u64,
)
    requires
        accounting(t0, p, open, t, xroot, xs, tops),
        tops.no_duplicates(),
        at >= t,
        open.len() > 0,
    ensures
        ({
            let n = open.len();
            let m = open.last();
            let e = at - m.start;
            let q = exit_step(p, m, at);
            if n == 1 {
                accounting(t0, q, open.drop_last(), at as int, xroot - e, Seq::empty(), tops)
            } else {
                accounting(
                    t0,
                    q,
                    open.drop_last(),
                    at as int,
                    xroot,
                    xs.drop_last().update(n - 2, xs[n - 2] - e),
                    tops,
                )
            }
        }),
{
    let n = open.len();
    let m = open.last();
    let e = at - m.start;
    let q = exit_step(p, m, at);
    let o2 = open.drop_last();
    let xroot2 = if n == 1 {
        xroot - e
    } else {
        xroot
    };
    let xs2 = if n == 1 {
        Seq::<int>::empty()
    } else {
        xs.drop_last().update(n - 2, xs[n - 2] - e)
    };
    lemma_chain_pop(open);
    lemma_levels_top(t0, p, open, t, xs, tops);
    let ai = m.idx as int;
    let pi = m.parent as int;
    let a = p.anchors[ai];
    let xm = xs[n - 1];
    assert(at.wrapping_sub(m.start) == e);
    assert(m.self_inclusive.wrapping_add(e as u64) == m.self_inclusive + e);
    lemma_wrap_add(xm, e);
    let a2 = Anchor {
        occurance: a.occurance.wrapping_add(1),
        inclusive: (m.self_inclusive + e) as u64,
        exclusive: (xm + e) as u64,
        ..a
    };
    let anchors1 = p.anchors.update(ai, a2);
    assert(pi != ai);
    let b = anchors1[pi];
    assert(b == p.anchors[pi]);
    let xp = if n == 1 {
        xroot
    } else {
        xs[n - 2]
    };
    assert(b.exclusive == wrap(xp));
    lemma_wrap_sub(xp, e);
    let b2 = Anchor { exclusive: wrap(xp - e), ..b };
    assert(q.anchors == anchors1.update(pi, b2));
    assert(q.anchors[ai] == a2);
    assert(q.anchors[pi] == b2);
    assert forall|c: int| 0 <= c < ANCHOR_COUNT && c != ai && c != pi implies (
    #[trigger] q.anchors[c]) == p.anchors[c] by {}
    lemma_sum_inclusive_update(p.anchors, tops, m.idx, a2);
    lemma_sum_inclusive_update(anchors1, tops, m.parent, b2);
    assert(sum_inclusive(q.anchors, tops) <= -xroot2);
    if n > 1 {
        assert(xs2[n - 2] == xs[n - 2] - e);
    }
    assert forall|k: int| 0 <= k < n - 2 implies xs2[k] == xs[k] by {}
    lemma_levels_exit(t0, p, q, open, t, at as int, xs, xs2, tops);
    lemma_closed_exit(t0, p, q, open, t, at as int);
    if n > 1 {
        assert(q.anchors[0] == p.anchors[0]);
        assert(o2.last() == open[n - 2]);
        assert(o2[0] == open[0]);
        assert(open[0].start <= open[n - 2].start) by {
            reveal(levels_ok);
            lemma_levels_chain_start(t0, p, open, t, xs, tops, n - 2);
        }
    }
}

/// The first open scope was entered no later than any other.
proof fn lemma_levels_chain_start(
    t0: u64,
    p: ProfilerView,
    open: Seq<MarkView>,
    t: int,
    xs: Seq<int>,
    tops: Seq<u32>,
    k: int,
)
    requires
        levels_ok(t0, p, open, t, xs, tops),
        0 <= k < open.len(),
    ensures
        open[0].start <= open[k].start,
    decreases k,
{
    if k > 0 {
        lemma_levels_chain_start(t0, p, open, t, xs, tops, k - 1);
        reveal(levels_ok);
        assert(open[k - 1].start <= level_bound(open, t, k - 1));
    }
}

proof fn lemma_accounting_replay(t0: u64, events: Seq<ScopeEvent>, tops: Seq<u32>) -> (r: (
    int,
    Seq<int>,
))
    requires
        disciplined(t0, events),
        tops.no_duplicates(),
        forall|i: int| 0 <= i < tops.len() ==> 0 < #[trigger] tops[i] < ANCHOR_COUNT,
        forall|i: int| 0 <= i < tops.len() ==> top_level_only(t0, events, #[trigger] tops[i]),
    ensures
        ({
            let (p, open) = session_after(t0, events);
            accounting(t0, p, open, last_time(t0, events) as int, r.0, r.1, tops)
        }),
    decreases events.len(),
{
    if events.len() == 0 {
        lemma_accounting_start(t0, tops);
        (0, Seq::empty())
    } else {
        let prev = events.drop_last();
        assert forall|i: int| 0 <= i < tops.len() implies top_level_only(
            t0,
            prev,
            #[trigger] tops[i],
        ) by {
            assert(top_level_only(t0, events, tops[i]));
        }
        let (xroot, xs) = lemma_accounting_replay(t0, prev, tops);
        let (p, open) = session_after(t0, prev);
        let t = last_time(t0, prev) as int;
        match events.last() {
            ScopeEvent::Enter { idx, bytes, at } => {
                if tops.contains(idx) {
                    let w = choose|w: int| 0 <= w < tops.len() && tops[w] == idx;
                    assert(top_level_only(t0, events, tops[w]));
                }
                lemma_accounting_enter(t0, p, open, t, xroot, xs, tops, idx, bytes, at);
                (xroot, xs.push(p.anchors[idx as int].exclusive as int))
            },
            ScopeEvent::Exit { at } => {
                lemma_accounting_exit(t0, p, open, t, xroot, xs, tops, at);
                let n = open.len();
                let e = at - open.last().start;
                if n == 1 {
                    (xroot - e, Seq::empty())
                } else {
                    (xroot, xs.drop_last().update(n - 2, xs[n - 2] - e))
                }
            },
        }
    }
}

/// For any sequence of scope entries and exits that keeps the profiler's
/// discipline and closes every scope it opens, ended at tick `end`: every
/// scope's exclusive time is at most its inclusive time, which is at most
/// the session's length; and the inclusive times of labels only ever entered
/// at the top level (`tops`) add up to at most the session's length.
pub proof fn lemma_scope_times(t0: u64, events: Seq<ScopeEvent>, tops: Seq<u32>, end: u64)
    requires
        disciplined(t0, events),
        session_after(t0, events).1.len() == 0,
        end >= last_time(t0, events),
        tops.no_duplicates(),
        forall|i: int| 0 <= i < tops.len() ==> 0 < #[trigger] tops[i] < ANCHOR_COUNT,
        forall|i: int| 0 <= i < tops.len() ==> top_level_only(t0, events, #[trigger] tops[i]),
    ensures
        ({
            let p = session_after(t0, events).0;
            &&& forall|a: int|
                0 < a < ANCHOR_COUNT ==> #[trigger] p.anchors[a].exclusive
                    <= p.anchors[a].inclusive <= end - t0
            &&& sum_inclusive(p.anchors, tops) <= end - t0
        }),
{
    let (xroot, xs) = lemma_accounting_replay(t0, events, tops);
    let (p, open) = session_after(t0, events);
    reveal(closed_ok);
    assert forall|a: int| 0 < a < ANCHOR_COUNT implies #[trigger] p.anchors[a].exclusive
        <= p.anchors[a].inclusive <= end - t0 by {
        assert(!is_open(open, a as u32));
    }
}

} // verus!
