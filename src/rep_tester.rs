use vstd::prelude::*;

verus! {

/// Largest value of a 64-bit counter; also the starting value of the best trial.
pub const COUNTER_MAX: u64 = 0xFFFF_FFFF_FFFF_FFFF;

/// Number of `print` calls between two progress lines while testing.
pub const PRINT_EVERY: u32 = 10;

/// Error kept when `init` is called on a tester that was not cleared.
pub const MSG_REINIT: &'static str = "Failed to re-init uncleared RepTester";

/// Error kept when a trial starts while another is open.
pub const MSG_DOUBLE_START: &'static str = "Double start have occured";

/// Error kept when a trial starts outside the `Testing` state.
pub const MSG_INVALID_START: &'static str = "Invalid start_run";

/// Error kept when a trial ends while none is open.
pub const MSG_END_WITHOUT_START: &'static str = "Invalid end_run command";

/// Error kept when a trial ends at a tick no later than its start.
pub const MSG_TIME_TRAVEL: &'static str = "Time travel is forbidden outside of Hogwarts";

/// Error kept when a trial ends outside the `Testing` state.
pub const MSG_INVALID_END: &'static str = "Invalid end_run";

/// Error kept when the trial counter cannot count one more trial.
pub const MSG_TOO_MANY_TRIALS: &'static str = "Trial counter exhausted";

/// Lifecycle of a tester: `Uninit -> Testing -> {Finished | Errored}`.
#[derive(Clone, Copy, PartialEq, Eq, Structural, Debug)]
pub enum Status {
    Uninit,
    Testing,
    Errored,
    Finished,
}

/// The counters sampled around one trial: elapsed ticks (the primary metric)
/// and page faults.
#[derive(Clone, Copy, PartialEq, Eq, Structural, Debug)]
pub struct Metrics {
    pub clocks: u64,
    pub page_faults: u64,
}

/// What `print` asks its caller to render.
#[derive(Clone, Copy, Debug)]
pub enum Printout {
    /// Throttled: nothing to show this time.
    Quiet,
    /// Best trial so far, while testing; `header` asks for the title line first.
    Progress { header: bool, best: Metrics },
    /// Final summary: best and worst trial, and the sums from which the
    /// average is `sum / runs`.
    Summary {
        header: bool,
        best: Metrics,
        worst: Metrics,
        runs: u64,
        sum_clocks: u128,
        sum_page_faults: u128,
    },
    /// The tester stopped on an error.
    Failure { message: Option<&'static str> },
    /// The tester was never started.
    NotStarted,
}

/// Aggregate of the trials of the current benchmark.
struct RepRun {
    name: &'static str,
    bytes: u64,
    runs: u64,
    start: Metrics,
    min: Metrics,
    max: Metrics,
    sum_clocks: u128,
    sum_page_faults: u128,
    trials: Ghost<Seq<Metrics>>,
}

/// Drives repeated trials of a block and keeps their statistics.
pub struct RepTester {
    status: Status,
    error_message: Option<&'static str>,
    is_running: bool,
    try_before: u64,
    timeout: u64,
    timer_frequency: u64,
    counter: u32,
    run: RepRun,
}

/// The abstract state of a tester.
pub struct TesterView {
    pub status: Status,
    pub message: Option<&'static str>,
    /// A trial has been started and not yet ended.
    pub running: bool,
    /// Tick before which a new trial may still start.
    pub deadline: u64,
    /// Length, in ticks, of the window granted after each new best trial.
    pub timeout: u64,
    pub frequency: u64,
    pub counter: u32,
    pub name: &'static str,
    pub bytes: u64,
    pub runs: u64,
    /// Counters sampled when the open trial started.
    pub start: Metrics,
    /// The fastest trial.
    pub min: Metrics,
    /// The slowest trial.
    pub max: Metrics,
    pub sum_clocks: int,
    pub sum_page_faults: int,
    /// Every recorded trial, oldest first.
    pub trials: Seq<Metrics>,
}

pub open spec fn sum_clocks(s: Seq<Metrics>) -> int
    decreases s.len(),
{
    if s.len() == 0 {
        0
    } else {
        sum_clocks(s.drop_last()) + s.last().clocks
    }
}

pub open spec fn sum_page_faults(s: Seq<Metrics>) -> int
    decreases s.len(),
{
    if s.len() == 0 {
        0
    } else {
        sum_page_faults(s.drop_last()) + s.last().page_faults
    }
}

/// Counters of a run that has recorded nothing yet.
pub open spec fn min_default() -> Metrics {
    Metrics { clocks: COUNTER_MAX, page_faults: COUNTER_MAX }
}

pub open spec fn zero_metrics() -> Metrics {
    Metrics { clocks: 0, page_faults: 0 }
}

/// `timeout_ms` milliseconds in ticks of a `frequency` Hz clock, truncated,
/// and capped at the largest counter value.
pub open spec fn timeout_ticks(frequency: u64, timeout_ms: u64) -> u64 {
    let t = frequency as int * timeout_ms as int / 1000;
    if t > COUNTER_MAX as int {
        COUNTER_MAX
    } else {
        t as u64
    }
}

/// The tick at which a window of `timeout` ticks opened at `now` closes.
pub open spec fn deadline_after(now: u64, timeout: u64) -> u64 {
    now.saturating_add(timeout)
}

/// A tester freshly made or cleared.
pub open spec fn fresh_view() -> TesterView {
    TesterView {
        status: Status::Uninit,
        message: None,
        running: false,
        deadline: 0,
        timeout: 0,
        frequency: 0,
        counter: 0,
        name: "",
        bytes: 0,
        runs: 0,
        start: zero_metrics(),
        min: min_default(),
        max: zero_metrics(),
        sum_clocks: 0,
        sum_page_faults: 0,
        trials: Seq::empty(),
    }
}

/// Records an error; the first error wins.
pub open spec fn error_step(v: TesterView, message: &'static str) -> TesterView {
    if v.status == Status::Errored {
        v
    } else {
        TesterView { status: Status::Errored, message: Some(message), ..v }
    }
}

/// `init`: from `Uninit`, start testing with the first window open from
/// `now`; from any other state, an error.
pub open spec fn init_step(
    v: TesterView,
    name: &'static str,
    bytes: u64,
    timeout_ms: u64,
    frequency: u64,
    now: u64,
) -> TesterView {
    if v.status == Status::Uninit {
        let timeout = timeout_ticks(frequency, timeout_ms);
        TesterView {
            status: Status::Testing,
            message: None,
            name,
            bytes,
            timeout,
            frequency,
            deadline: deadline_after(now, timeout),
            ..v
        }
    } else {
        error_step(v, MSG_REINIT)
    }
}

/// `should_continue`: while testing, `true` before the deadline; the first
/// call at or after it finishes the run. `false` in every other state.
pub open spec fn should_continue_step(v: TesterView, now: u64) -> (TesterView, bool) {
    if v.status == Status::Testing {
        if now < v.deadline {
            (v, true)
        } else {
            (TesterView { status: Status::Finished, ..v }, false)
        }
    } else {
        (v, false)
    }
}

/// `start_run`: opens a trial while testing with none open; else an error.
pub open spec fn start_run_step(v: TesterView, now: u64, page_faults: u64) -> TesterView {
    if v.status == Status::Testing {
        if v.running {
            error_step(v, MSG_DOUBLE_START)
        } else {
            TesterView {
                running: true,
                start: Metrics { clocks: now, page_faults },
                ..v
            }
        }
    } else {
        error_step(v, MSG_INVALID_START)
    }
}

/// Counters of the trial that started at `start` and ended at `now`.
pub open spec fn elapsed(start: Metrics, now: u64, page_faults: u64) -> Metrics {
    Metrics {
        clocks: (now - start.clocks) as u64,
        page_faults: page_faults.wrapping_sub(start.page_faults),
    }
}

/// Adds trial `e`, ended at tick `now`, to the statistics. A new best trial
/// reopens the timeout window from `now`.
pub open spec fn record_step(v: TesterView, e: Metrics, now: u64) -> TesterView {
    let best = e.clocks < v.min.clocks;
    TesterView {
        running: false,
        runs: (v.runs + 1) as u64,
        sum_clocks: v.sum_clocks + e.clocks,
        sum_page_faults: v.sum_page_faults + e.page_faults,
        trials: v.trials.push(e),
        min: if best {
            e
        } else {
            v.min
        },
        deadline: if best {
            deadline_after(now, v.timeout)
        } else {
            v.deadline
        },
        max: if e.clocks > v.max.clocks {
            e
        } else {
            v.max
        },
        ..v
    }
}

/// `end_run`: closes the open trial and records it, unless the tester is
/// not testing, no trial is open, the clock did not advance, or the trial
/// counter is full; each of those is an error.
pub open spec fn end_run_step(v: TesterView, now: u64, page_faults: u64) -> TesterView {
    if v.status != Status::Testing {
        error_step(v, MSG_INVALID_END)
    } else if !v.running {
        error_step(v, MSG_END_WITHOUT_START)
    } else if now <= v.start.clocks {
        error_step(v, MSG_TIME_TRAVEL)
    } else if v.runs == COUNTER_MAX {
        error_step(v, MSG_TOO_MANY_TRIALS)
    } else {
        record_step(v, elapsed(v.start, now, page_faults), now)
    }
}

/// `print`: what to show, and the throttling counter's update.
pub open spec fn print_step(v: TesterView) -> (TesterView, Printout) {
    match v.status {
        Status::Finished => {
            let summary = |header: bool|
                Printout::Summary {
                    header,
                    best: v.min,
                    worst: v.max,
                    runs: v.runs,
                    sum_clocks: v.sum_clocks as u128,
                    sum_page_faults: v.sum_page_faults as u128,
                };
            if v.counter == 0 {
                (TesterView { counter: 1, ..v }, summary(true))
            } else {
                (v, summary(false))
            }
        },
        Status::Errored => (v, Printout::Failure { message: v.message }),
        Status::Testing => {
            let next = TesterView { counter: v.counter.wrapping_add(1), ..v };
            if v.counter % PRINT_EVERY != 0 {
                (next, Printout::Quiet)
            } else {
                (next, Printout::Progress { header: v.counter == 0, best: v.min })
            }
        },
        Status::Uninit => (v, Printout::NotStarted),
    }
}

impl TesterView {
    /// The statistics agree with the recorded trials.
    pub open spec fn valid(self) -> bool {
        &&& self.runs == self.trials.len()
        &&& self.sum_clocks == sum_clocks(self.trials)
        &&& self.sum_page_faults == sum_page_faults(self.trials)
        &&& forall|i: int|
            0 <= i < self.trials.len() ==> self.min.clocks <= #[trigger] self.trials[i].clocks
                <= self.max.clocks
    }
}

impl RepTester {
    pub closed spec fn view(&self) -> TesterView {
        TesterView {
            status: self.status,
            message: self.error_message,
            running: self.is_running,
            deadline: self.try_before,
            timeout: self.timeout,
            frequency: self.timer_frequency,
            counter: self.counter,
            name: self.run.name,
            bytes: self.run.bytes,
            runs: self.run.runs,
            start: self.run.start,
            min: self.run.min,
            max: self.run.max,
            sum_clocks: self.run.sum_clocks as int,
            sum_page_faults: self.run.sum_page_faults as int,
            trials: self.run.trials@,
        }
    }
}

proof fn lemma_sums_push(s: Seq<Metrics>, e: Metrics)
    ensures
        sum_clocks(s.push(e)) == sum_clocks(s) + e.clocks,
        sum_page_faults(s.push(e)) == sum_page_faults(s) + e.page_faults,
{
    assert(s.push(e).drop_last() =~= s);
}

/// Every trial lies between `lo` and `hi` ticks, so their sum lies between
/// `lo` and `hi` times their count.
proof fn lemma_sum_clocks_bounds(s: Seq<Metrics>, lo: int, hi: int)
    requires
        forall|i: int| 0 <= i < s.len() ==> lo <= #[trigger] s[i].clocks <= hi,
    ensures
        lo * s.len() <= sum_clocks(s) <= hi * s.len(),
    decreases s.len(),
{
    if s.len() > 0 {
        let t = s.drop_last();
        assert forall|i: int| 0 <= i < t.len() implies lo <= #[trigger] t[i].clocks <= hi by {
            assert(t[i] == s[i]);
        }
        lemma_sum_clocks_bounds(t, lo, hi);
        assert(lo <= s[s.len() - 1].clocks <= hi);
        assert(lo * s.len() == lo * t.len() + lo) by (nonlinear_arith)
            requires
                s.len() == t.len() + 1,
        ;
        assert(hi * s.len() == hi * t.len() + hi) by (nonlinear_arith)
            requires
                s.len() == t.len() + 1,
        ;
    }
}

proof fn lemma_sum_page_faults_bound(s: Seq<Metrics>)
    ensures
        0 <= sum_page_faults(s) <= COUNTER_MAX * s.len(),
    decreases s.len(),
{
    if s.len() > 0 {
        lemma_sum_page_faults_bound(s.drop_last());
        assert(COUNTER_MAX * s.len() == COUNTER_MAX * (s.len() - 1) + COUNTER_MAX)
            by (nonlinear_arith);
    }
}

/// Recording a trial keeps the statistics in agreement with the trials.
proof fn lemma_record_valid(v: TesterView, e: Metrics, now: u64)
    requires
        v.valid(),
        v.runs < COUNTER_MAX,
    ensures
        record_step(v, e, now).valid(),
{
    let w = record_step(v, e, now);
    lemma_sums_push(v.trials, e);
    assert forall|i: int| 0 <= i < w.trials.len() implies w.min.clocks <= #[trigger] w.trials[i].clocks
        <= w.max.clocks by {
        if i < v.trials.len() {
            assert(w.trials[i] == v.trials[i]);
            assert(v.min.clocks <= v.trials[i].clocks <= v.max.clocks);
        }
    }
}

/// Whatever trials were recorded, the fastest time is at most the average
/// and the average at most the slowest time. With the average written as
/// `sum / runs`: `min * runs <= sum <= max * runs`.
pub proof fn lemma_min_avg_max(v: TesterView)
    requires
        v.valid(),
        v.runs > 0,
    ensures
        v.min.clocks * v.runs <= v.sum_clocks <= v.max.clocks * v.runs,
{
    lemma_sum_clocks_bounds(v.trials, v.min.clocks as int, v.max.clocks as int);
}

/// The running total is updated one trial at a time, and after every update
/// it is the plain sum of all recorded times, so `sum / runs` is the mean of
/// the recorded trials.
pub proof fn lemma_running_total_is_batch_sum(v: TesterView, now: u64, page_faults: u64)
    requires
        v.valid(),
        v.status == Status::Testing,
        v.running,
        now > v.start.clocks,
        v.runs < COUNTER_MAX,
    ensures
        ({
            let w = end_run_step(v, now, page_faults);
            &&& w.runs == v.runs + 1
            &&& w.trials == v.trials.push(elapsed(v.start, now, page_faults))
            &&& w.sum_clocks == v.sum_clocks + (now - v.start.clocks)
            &&& w.sum_clocks == sum_clocks(w.trials)
            &&& w.runs == w.trials.len()
        }),
{
    lemma_record_valid(v, elapsed(v.start, now, page_faults), now);
}

/// Ending a trial that was never started is an error in every state, and
/// leaves the statistics as they were.
pub proof fn lemma_end_without_start(v: TesterView, now: u64, page_faults: u64)
    requires
        !v.running,
    ensures
        ({
            let w = end_run_step(v, now, page_faults);
            &&& w.status == Status::Errored
            &&& w.min == v.min
            &&& w.max == v.max
            &&& w.runs == v.runs
            &&& w.sum_clocks == v.sum_clocks
            &&& w.sum_page_faults == v.sum_page_faults
            &&& w.trials == v.trials
        }),
{
}

/// Once the deadline has passed, `should_continue` answers `false` and ends
/// the run; any later call answers `false` and changes nothing.
pub proof fn lemma_deadline_ends_run_once(v: TesterView, now: u64, later: u64)
    requires
        v.status == Status::Testing,
        now >= v.deadline,
    ensures
        ({
            let (w, r) = should_continue_step(v, now);
            let (x, q) = should_continue_step(w, later);
            &&& !r
            &&& w.status == Status::Finished
            &&& !q
            &&& x == w
        }),
{
}

/// A new best trial moves the deadline strictly later, given a positive
/// timeout and a clock that does not run backwards (the trial started no
/// earlier than the moment the current deadline was set) and does not reach
/// the top of its range.
pub proof fn lemma_new_best_extends_deadline(v: TesterView, now: u64, page_faults: u64)
    requires
        v.valid(),
        v.status == Status::Testing,
        v.running,
        v.runs < COUNTER_MAX,
        v.timeout > 0,
        now > v.start.clocks,
        now - v.start.clocks < v.min.clocks,
        v.deadline <= v.start.clocks + v.timeout,
        now + v.timeout <= COUNTER_MAX,
    ensures
        ({
            let w = end_run_step(v, now, page_faults);
            &&& w.min == elapsed(v.start, now, page_faults)
            &&& w.deadline == now + v.timeout
            &&& w.deadline > v.deadline
        }),
{
}

impl RepRun {
    spec fn is_empty(&self) -> bool {
        &&& self.name == ""
        &&& self.bytes == 0
        &&& self.runs == 0
        &&& self.start == zero_metrics()
        &&& self.min == min_default()
        &&& self.max == zero_metrics()
        &&& self.sum_clocks == 0
        &&& self.sum_page_faults == 0
        &&& self.trials@ == Seq::<Metrics>::empty()
    }

    fn empty() -> (r: RepRun)
        ensures
            r.is_empty(),
    {
        RepRun {
            name: "",
            bytes: 0,
            runs: 0,
            start: Metrics { clocks: 0, page_faults: 0 },
            min: Metrics { clocks: COUNTER_MAX, page_faults: COUNTER_MAX },
            max: Metrics { clocks: 0, page_faults: 0 },
            sum_clocks: 0,
            sum_page_faults: 0,
            trials: Ghost(Seq::empty()),
        }
    }

    fn clear(&mut self)
        ensures
            final(self).is_empty(),
    {
        self.name = "";
        self.bytes = 0;
        self.runs = 0;
        self.start = Metrics { clocks: 0, page_faults: 0 };
        self.min = Metrics { clocks: COUNTER_MAX, page_faults: COUNTER_MAX };
        self.max = Metrics { clocks: 0, page_faults: 0 };
        self.sum_clocks = 0;
        self.sum_page_faults = 0;
        self.trials = Ghost(Seq::empty());
    }
}

impl RepTester {
    /// A tester in the `Uninit` state, with no statistics.
    pub fn new() -> (r: RepTester)
        ensures
            r@ == fresh_view(),
            r@.valid(),
    {
        RepTester {
            status: Status::Uninit,
            error_message: None,
            is_running: false,
            try_before: 0,
            timeout: 0,
            timer_frequency: 0,
            counter: 0,
            run: RepRun::empty(),
        }
    }

    /// Moves to `Errored` with `err`, unless an earlier error is already kept.
    pub fn error(&mut self, err: &'static str)
        ensures
            final(self)@ == error_step(old(self)@, err),
            old(self)@.valid() ==> final(self)@.valid(),
    {
        match self.status {
            Status::Errored => {},
            _ => {
                self.status = Status::Errored;
                self.error_message = Some(err);
            },
        }
    }

    /// Starts a benchmark named `name` over `bytes` bytes. The run stops once
    /// `timeout_ms` milliseconds of a `frequency` Hz clock pass without a new
    /// best trial; the first window opens at tick `now`.
    pub fn init(
        &mut self,
        name: &'static str,
        bytes: u64,
        timeout_ms: u64,
        frequency: u64,
        now: u64,
    )
        ensures
            final(self)@ == init_step(old(self)@, name, bytes, timeout_ms, frequency, now),
            old(self)@.valid() ==> final(self)@.valid(),
    {
        match self.status {
            Status::Uninit => {
                assert(frequency as int * timeout_ms as int <= COUNTER_MAX as int
                    * COUNTER_MAX as int) by (nonlinear_arith)
                    requires
                        frequency <= COUNTER_MAX,
                        timeout_ms <= COUNTER_MAX,
                ;
                let ticks: u128 = (frequency as u128) * (timeout_ms as u128) / 1000;
                let timeout: u64 = if ticks > COUNTER_MAX as u128 {
                    COUNTER_MAX
                } else {
                    ticks as u64
                };
                self.run.name = name;
                self.run.bytes = bytes;
                self.status = Status::Testing;
                self.error_message = None;
                self.timeout = timeout;
                self.timer_frequency = frequency;
                self.try_before = now.saturating_add(timeout);
            },
            _ => {
                self.error(MSG_REINIT);
            },
        }
    }

    /// Whether another trial may start at tick `now`. The first call at or
    /// after the deadline ends the run.
    pub fn should_continue(&mut self, now: u64) -> (r: bool)
        ensures
            (final(self)@, r) == should_continue_step(old(self)@, now),
            old(self)@.valid() ==> final(self)@.valid(),
    {
        match self.status {
            Status::Testing => {
                if now < self.try_before {
                    true
                } else {
                    self.status = Status::Finished;
                    false
                }
            },
            _ => false,
        }
    }

    /// Opens a trial whose counters read `now` ticks and `page_faults` faults.
    pub fn start_run(&mut self, now: u64, page_faults: u64)
        ensures
            final(self)@ == start_run_step(old(self)@, now, page_faults),
            old(self)@.valid() ==> final(self)@.valid(),
    {
        match self.status {
            Status::Testing => {
                if self.is_running {
                    self.error(MSG_DOUBLE_START);
                } else {
                    self.is_running = true;
                    self.run.start = Metrics { clocks: now, page_faults };
                }
            },
            _ => {
                self.error(MSG_INVALID_START);
            },
        }
    }

    /// Closes the open trial with counters `now` and `page_faults`, and adds
    /// it to the statistics.
    pub fn end_run(&mut self, now: u64, page_faults: u64)
        requires
            old(self)@.valid(),
        ensures
            final(self)@ == end_run_step(old(self)@, now, page_faults),
            final(self)@.valid(),
    {
        let start = self.run.start;
        match self.status {
            Status::Testing => {
                if !self.is_running {
                    self.error(MSG_END_WITHOUT_START);
                } else if now <= start.clocks {
                    self.error(MSG_TIME_TRAVEL);
                } else if self.run.runs == COUNTER_MAX {
                    self.error(MSG_TOO_MANY_TRIALS);
                } else {
                    let e = Metrics {
                        clocks: now - start.clocks,
                        page_faults: page_faults.wrapping_sub(start.page_faults),
                    };
                    let ghost v = self@;
                    proof {
                        lemma_sum_clocks_bounds(v.trials, 0, COUNTER_MAX as int);
                        lemma_sum_page_faults_bound(v.trials);
                        assert(COUNTER_MAX * v.runs + COUNTER_MAX <= COUNTER_MAX * COUNTER_MAX)
                            by (nonlinear_arith)
                            requires
                                v.runs < COUNTER_MAX,
                        ;
                        lemma_record_valid(v, e, now);
                    }
                    self.is_running = false;
                    self.run.runs = self.run.runs + 1;
                    self.run.sum_clocks = self.run.sum_clocks + e.clocks as u128;
                    self.run.sum_page_faults = self.run.sum_page_faults + e.page_faults as u128;
                    self.run.trials = Ghost(self.run.trials@.push(e));
                    if e.clocks < self.run.min.clocks {
                        self.run.min = e;
                        self.try_before = now.saturating_add(self.timeout);
                    }
                    if e.clocks > self.run.max.clocks {
                        self.run.max = e;
                    }
                }
            },
            _ => {
                self.error(MSG_INVALID_END);
            },
        }
    }

    /// Says what to show now: a progress line every `PRINT_EVERY` calls
    /// while testing, the summary once finished, the message once errored.
    pub fn print(&mut self) -> (r: Printout)
        ensures
            (final(self)@, r) == print_step(old(self)@),
            old(self)@.valid() ==> final(self)@.valid(),
    {
        match self.status {
            Status::Finished => {
                let header = self.counter == 0;
                if header {
                    self.counter = 1;
                }
                Printout::Summary {
                    header,
                    best: self.run.min,
                    worst: self.run.max,
                    runs: self.run.runs,
                    sum_clocks: self.run.sum_clocks,
                    sum_page_faults: self.run.sum_page_faults,
                }
            },
            Status::Errored => Printout::Failure { message: self.error_message },
            Status::Testing => {
                let header = self.counter == 0;
                let quiet = self.counter % PRINT_EVERY != 0;
                self.counter = self.counter.wrapping_add(1);
                if quiet {
                    Printout::Quiet
                } else {
                    Printout::Progress { header, best: self.run.min }
                }
            },
            Status::Uninit => Printout::NotStarted,
        }
    }

    pub fn status(&self) -> (r: Status)
        ensures
            r == self@.status,
    {
        self.status
    }

    /// The kept error message, if any.
    pub fn error_message(&self) -> (r: Option<&'static str>)
        ensures
            r == self@.message,
    {
        self.error_message
    }

    /// Whether a trial is open.
    pub fn is_running(&self) -> (r: bool)
        ensures
            r == self@.running,
    {
        self.is_running
    }

    /// Number of recorded trials.
    pub fn trial_count(&self) -> (r: u64)
        ensures
            r == self@.runs,
    {
        self.run.runs
    }

    /// Counters of the fastest trial.
    pub fn best(&self) -> (r: Metrics)
        ensures
            r == self@.min,
    {
        self.run.min
    }

    /// Counters of the slowest trial.
    pub fn worst(&self) -> (r: Metrics)
        ensures
            r == self@.max,
    {
        self.run.max
    }

    /// Sum of the recorded trials' ticks.
    pub fn sum_clocks(&self) -> (r: u128)
        ensures
            r == self@.sum_clocks,
    {
        self.run.sum_clocks
    }

    /// Sum of the recorded trials' page faults.
    pub fn sum_page_faults(&self) -> (r: u128)
        ensures
            r == self@.sum_page_faults,
    {
        self.run.sum_page_faults
    }

    /// Tick before which a new trial may still start.
    pub fn deadline(&self) -> (r: u64)
        ensures
            r == self@.deadline,
    {
        self.try_before
    }

    /// Length of the timeout window, in ticks.
    pub fn timeout(&self) -> (r: u64)
        ensures
            r == self@.timeout,
    {
        self.timeout
    }

    /// Frequency of the clock, as given to `init`.
    pub fn timer_frequency(&self) -> (r: u64)
        ensures
            r == self@.frequency,
    {
        self.timer_frequency
    }

    pub fn name(&self) -> (r: &'static str)
        ensures
            r == self@.name,
    {
        self.run.name
    }

    /// Bytes that one trial processes.
    pub fn bytes(&self) -> (r: u64)
        ensures
            r == self@.bytes,
    {
        self.run.bytes
    }

    /// Back to `Uninit`, dropping every statistic.
    pub fn clear(&mut self)
        ensures
            final(self)@ == fresh_view(),
            final(self)@.valid(),
    {
        self.status = Status::Uninit;
        self.error_message = None;
        self.run.clear();
        self.is_running = false;
        self.counter = 0;
        self.timeout = 0;
        self.timer_frequency = 0;
        self.try_before = 0;
    }
}

} // verus!
