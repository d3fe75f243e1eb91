use vstd::prelude::*;

verus! {

/// Number of anchors, and one more than the largest label id.
pub const ANCHOR_COUNT: usize = 4096;

/// Totals of one scope label over a profiling session.
#[derive(Clone, Copy, PartialEq, Eq, Structural, Debug)]
pub struct Anchor {
    /// Ticks spent in the scope, nested scopes included.
    pub inclusive: u64,
    /// Ticks spent in the scope itself, nested scopes left out.
    pub exclusive: u64,
    /// Times the scope was closed.
    pub occurance: u32,
    /// Bytes that the scope's entries announced.
    pub processed_bytes: u64,
}

/// An active profiling session: one anchor per label, the tick at which the
/// session started, and the label of the innermost open scope (0: none).
pub struct Profiler {
    anchors: Vec<Anchor>,
    root_start: u64,
    current: u32,
}

/// Proof of entry into a scope, handed back to `Mark::close` on exit.
pub struct Mark {
    idx: u32,
    start: u64,
    self_inclusive: u64,
    parent: u32,
}

pub struct ProfilerView {
    pub anchors: Seq<Anchor>,
    pub root_start: u64,
    pub current: u32,
}

pub struct MarkView {
    /// Label of the scope.
    pub idx: u32,
    /// Tick of entry.
    pub start: u64,
    /// The scope's inclusive time at entry.
    pub self_inclusive: u64,
    /// Label that was innermost at entry.
    pub parent: u32,
}

/// One line of the final report.
#[derive(Clone, Copy, Debug)]
pub struct ScopeReport {
    pub name: &'static str,
    pub occurrences: u32,
    pub inclusive: u64,
    pub exclusive: u64,
    pub processed_bytes: u64,
}

/// What ending a session yields: its length in ticks, and one line per
/// label that saw any time, in the order of the label table.
pub struct ProfileReport {
    pub total_clocks: u64,
    pub scopes: Vec<ScopeReport>,
}

/// An anchor with nothing recorded.
pub open spec fn empty_anchor() -> Anchor {
    Anchor { inclusive: 0, exclusive: 0, occurance: 0, processed_bytes: 0 }
}

/// A session started at tick `now`.
pub open spec fn fresh_profiler(now: u64) -> ProfilerView {
    ProfilerView {
        anchors: Seq::new(ANCHOR_COUNT as nat, |i: int| empty_anchor()),
        root_start: now,
        current: 0,
    }
}

/// Entering scope `idx` at tick `now`, announcing `bytes` bytes.
pub open spec fn enter_step(p: ProfilerView, idx: u32, bytes: u64, now: u64) -> (
    ProfilerView,
    MarkView,
) {
    let a = p.anchors[idx as int];
    let mark = MarkView { idx, start: now, self_inclusive: a.inclusive, parent: p.current };
    let a2 = Anchor { processed_bytes: a.processed_bytes.wrapping_add(bytes), ..a };
    (ProfilerView { anchors: p.anchors.update(idx as int, a2), current: idx, ..p }, mark)
}

/// Leaving the scope of `m` at tick `now`: the scope gains the elapsed ticks,
/// its parent loses them from its own time. Every counter wraps around on
/// overflow instead of failing.
pub open spec fn exit_step(p: ProfilerView, m: MarkView, now: u64) -> ProfilerView {
    let elapsed = now.wrapping_sub(m.start);
    let a = p.anchors[m.idx as int];
    let a2 = Anchor {
        occurance: a.occurance.wrapping_add(1),
        inclusive: m.self_inclusive.wrapping_add(elapsed),
        exclusive: a.exclusive.wrapping_add(elapsed),
        ..a
    };
    let anchors = p.anchors.update(m.idx as int, a2);
    let b = anchors[m.parent as int];
    let b2 = Anchor { exclusive: b.exclusive.wrapping_sub(elapsed), ..b };
    ProfilerView { anchors: anchors.update(m.parent as int, b2), current: m.parent, ..p }
}

/// The report line of an anchor.
pub open spec fn scope_line(name: &'static str, a: Anchor) -> ScopeReport {
    ScopeReport {
        name,
        occurrences: a.occurance,
        inclusive: a.inclusive,
        exclusive: a.exclusive,
        processed_bytes: a.processed_bytes,
    }
}

/// Report lines for `labels`: the labels whose anchor saw any time.
pub open spec fn report_lines(anchors: Seq<Anchor>, labels: Seq<(u32, &'static str)>) -> Seq<
    ScopeReport,
>
    decreases labels.len(),
{
    if labels.len() == 0 {
        Seq::empty()
    } else {
        let prev = report_lines(anchors, labels.drop_last());
        let (idx, name) = labels.last();
        let a = anchors[idx as int];
        if a.exclusive == 0 && a.inclusive == 0 {
            prev
        } else {
            prev.push(scope_line(name, a))
        }
    }
}

impl ProfilerView {
    pub open spec fn valid(self) -> bool {
        &&& self.anchors.len() == ANCHOR_COUNT
        &&& self.current < ANCHOR_COUNT
    }
}

impl MarkView {
    pub open spec fn valid(self) -> bool {
        &&& self.idx < ANCHOR_COUNT
        &&& self.parent < ANCHOR_COUNT
    }
}

impl Anchor {
    /// An anchor with nothing recorded.
    pub fn empty() -> (r: Anchor)
        ensures
            r == empty_anchor(),
    {
        Anchor { inclusive: 0, occurance: 0, exclusive: 0, processed_bytes: 0 }
    }

    pub fn occurance(&self) -> (r: u32)
        ensures
            r == self.occurance,
    {
        self.occurance
    }
}

impl Profiler {
    pub closed spec fn view(&self) -> ProfilerView {
        ProfilerView { anchors: self.anchors@, root_start: self.root_start, current: self.current }
    }

    /// A session that starts at tick `now`, with every anchor empty.
    pub fn new(now: u64) -> (r: Profiler)
        ensures
            r@ == fresh_profiler(now),
            r@.valid(),
    {
        let mut anchors: Vec<Anchor> = Vec::new();
        let mut i: usize = 0;
        while i < ANCHOR_COUNT
            invariant
                i <= ANCHOR_COUNT,
                anchors@ == Seq::new(i as nat, |j: int| empty_anchor()),
            decreases ANCHOR_COUNT - i,
        {
            anchors.push(Anchor::empty());
            i = i + 1;
            assert(anchors@ =~= Seq::new(i as nat, |j: int| empty_anchor()));
        }
        assert(anchors@ =~= fresh_profiler(now).anchors);
        Profiler { anchors, root_start: now, current: 0 }
    }

    /// The totals of label `idx`.
    pub fn anchor(&self, idx: u32) -> (r: Anchor)
        requires
            self@.valid(),
            idx < ANCHOR_COUNT,
        ensures
            r == self@.anchors[idx as int],
    {
        self.anchors[idx as usize]
    }

    /// The tick at which the session started.
    pub fn root_start(&self) -> (r: u64)
        ensures
            r == self@.root_start,
    {
        self.root_start
    }

    /// The label of the innermost open scope; 0 when none is open.
    pub fn current_scope(&self) -> (r: u32)
        ensures
            r == self@.current,
    {
        self.current
    }
}

impl Mark {
    pub closed spec fn view(&self) -> MarkView {
        MarkView {
            idx: self.idx,
            start: self.start,
            self_inclusive: self.self_inclusive,
            parent: self.parent,
        }
    }

    /// Enters scope `idx` at tick `now`, announcing `bytes` bytes.
    pub fn new(profiler: &mut Profiler, idx: u32, bytes: u64, now: u64) -> (r: Mark)
        requires
            old(profiler)@.valid(),
            idx < ANCHOR_COUNT,
        ensures
            (final(profiler)@, r@) == enter_step(old(profiler)@, idx, bytes, now),
            final(profiler)@.valid(),
            r@.valid(),
    {
        let a = profiler.anchors[idx as usize];
        let mark = Mark { idx, start: now, self_inclusive: a.inclusive, parent: profiler.current };
        let a2 = Anchor { processed_bytes: a.processed_bytes.wrapping_add(bytes), ..a };
        profiler.anchors.set(idx as usize, a2);
        profiler.current = idx;
        mark
    }

    /// Leaves the scope at tick `now`: books the elapsed ticks on the scope
    /// and takes them off its parent's own time.
    pub fn close(self, profiler: &mut Profiler, now: u64)
        requires
            old(profiler)@.valid(),
            self@.valid(),
        ensures
            final(profiler)@ == exit_step(old(profiler)@, self@, now),
            final(profiler)@.valid(),
    {
        let elapsed = now.wrapping_sub(self.start);
        let i = self.idx as usize;
        let a = profiler.anchors[i];
        let a2 = Anchor {
            occurance: a.occurance.wrapping_add(1),
            inclusive: self.self_inclusive.wrapping_add(elapsed),
            exclusive: a.exclusive.wrapping_add(elapsed),
            ..a
        };
        profiler.anchors.set(i, a2);
        let j = self.parent as usize;
        let b = profiler.anchors[j];
        let b2 = Anchor { exclusive: b.exclusive.wrapping_sub(elapsed), ..b };
        profiler.anchors.set(j, b2);
        profiler.current = self.parent;
    }
}

/// Opens the session in `session` at tick `now`. Only one session may be
/// active: the slot must be empty.
pub fn start_profile(session: &mut Option<Profiler>, now: u64)
    requires
        *old(session) is None,
    ensures
        *final(session) is Some,
        (*final(session))->0@ == fresh_profiler(now),
        (*final(session))->0@.valid(),
{
    *session = Some(Profiler::new(now));
}

/// Enters scope `idx` of the active session at tick `now`.
pub fn mark_scope(profiler: &mut Profiler, idx: u32, processed_bytes: u64, now: u64) -> (r: Mark)
    requires
        old(profiler)@.valid(),
        idx < ANCHOR_COUNT,
    ensures
        (final(profiler)@, r@) == enter_step(old(profiler)@, idx, processed_bytes, now),
        final(profiler)@.valid(),
        r@.valid(),
{
    Mark::new(profiler, idx, processed_bytes, now)
}

/// Ends the session in `session` at tick `now` and reports the labels of
/// `labels` (id and name) that saw any time. The slot is empty afterwards.
pub fn finish_end_print_root_profile(
    session: &mut Option<Profiler>,
    labels: &[(u32, &'static str)],
    now: u64,
) -> (r: ProfileReport)
    requires
        *old(session) is Some,
        (*old(session))->0@.valid(),
        forall|i: int| 0 <= i < labels@.len() ==> (#[trigger] labels@[i]).0 < ANCHOR_COUNT,
    ensures
        *final(session) is None,
        r.total_clocks == now.wrapping_sub((*old(session))->0@.root_start),
        r.scopes@ == report_lines((*old(session))->0@.anchors, labels@),
{
    let profiler = session.take().unwrap();
    let ghost anchors = profiler@.anchors;
    let mut scopes: Vec<ScopeReport> = Vec::new();
    let mut i: usize = 0;
    while i < labels.len()
        invariant
            i <= labels@.len(),
            profiler@.anchors == anchors,
            anchors.len() == ANCHOR_COUNT,
            forall|k: int| 0 <= k < labels@.len() ==> (#[trigger] labels@[k]).0 < ANCHOR_COUNT,
            scopes@ == report_lines(anchors, labels@.take(i as int)),
        decreases labels@.len() - i,
    {
        let (idx, name) = labels[i];
        let a = profiler.anchors[idx as usize];
        proof {
            assert(labels@.take(i + 1).drop_last() =~= labels@.take(i as int));
        }
        if a.exclusive != 0 || a.inclusive != 0 {
            scopes.push(
                ScopeReport {
                    name,
                    occurrences: a.occurance,
                    inclusive: a.inclusive,
                    exclusive: a.exclusive,
                    processed_bytes: a.processed_bytes,
                },
            );
        }
        i = i + 1;
    }
    assert(labels@.take(labels@.len() as int) =~= labels@);
    ProfileReport { total_clocks: now.wrapping_sub(profiler.root_start), scopes }
}

} // verus!
