use perf_harness::{
    Metrics, Printout, RepTester, Status, MSG_DOUBLE_START, MSG_END_WITHOUT_START,
    MSG_INVALID_END, MSG_INVALID_START, MSG_REINIT, MSG_TIME_TRAVEL,
};

const FREQ: u64 = 1_000_000;

fn started(now: u64) -> RepTester {
    let mut t = RepTester::new();
    t.init("x", 1000, 10, FREQ, now);
    t
}

#[test]
fn fixed_elapsed_trials_agree() {
    let c: u64 = 250;
    let mut clock: u64 = 0;
    let mut t = started(clock);
    for _ in 0..10 {
        t.start_run(clock, 0);
        clock += c;
        t.end_run(clock, 0);
    }
    assert_eq!(t.status(), Status::Testing);
    assert_eq!(t.trial_count(), 10);
    assert_eq!(t.best().clocks, c);
    assert_eq!(t.worst().clocks, c);
    assert_eq!(t.sum_clocks(), 10 * c as u128);
    assert_eq!(t.sum_clocks() / t.trial_count() as u128, c as u128);
}

#[test]
fn end_run_twice_errors() {
    let mut t = started(0);
    t.start_run(10, 0);
    t.end_run(20, 0);
    assert_eq!(t.status(), Status::Testing);
    t.end_run(30, 0);
    assert_eq!(t.status(), Status::Errored);
    assert_eq!(t.error_message(), Some(MSG_END_WITHOUT_START));
}

#[test]
fn end_without_start_keeps_statistics() {
    let mut t = started(0);
    t.start_run(10, 1);
    t.end_run(50, 3);
    let (best, worst, sum, runs) = (t.best(), t.worst(), t.sum_clocks(), t.trial_count());
    t.end_run(70, 4);
    assert_eq!(t.status(), Status::Errored);
    assert_eq!(t.best(), best);
    assert_eq!(t.worst(), worst);
    assert_eq!(t.sum_clocks(), sum);
    assert_eq!(t.trial_count(), runs);
}

#[test]
fn end_without_start_from_uninit_errors() {
    let mut t = RepTester::new();
    t.end_run(5, 0);
    assert_eq!(t.status(), Status::Errored);
    assert_eq!(t.error_message(), Some(MSG_INVALID_END));
    assert_eq!(t.trial_count(), 0);
}

#[test]
fn deadline_finishes_once() {
    let mut t = started(0);
    let deadline = t.deadline();
    assert_eq!(deadline, 10_000);
    assert!(t.should_continue(deadline - 1));
    assert_eq!(t.status(), Status::Testing);
    assert!(!t.should_continue(deadline));
    assert_eq!(t.status(), Status::Finished);
    assert!(!t.should_continue(deadline + 5));
    assert_eq!(t.status(), Status::Finished);
}

#[test]
fn new_best_moves_deadline() {
    let mut t = started(0);
    let d0 = t.deadline();
    t.start_run(100, 0);
    t.end_run(600, 0);
    let d1 = t.deadline();
    assert_eq!(d1, 600 + t.timeout());
    assert!(d1 > d0);
    // slower trial: deadline stays
    t.start_run(700, 0);
    t.end_run(1700, 0);
    assert_eq!(t.deadline(), d1);
    // faster trial: deadline moves again
    t.start_run(1800, 0);
    t.end_run(1900, 0);
    assert_eq!(t.deadline(), 1900 + t.timeout());
    assert!(t.deadline() > d1);
}

#[test]
fn min_avg_max_order() {
    let mut t = started(0);
    let mut clock: u64 = 0;
    for e in [40u64, 10, 70, 25, 55] {
        t.start_run(clock, 0);
        clock += e;
        t.end_run(clock, 0);
    }
    let runs = t.trial_count() as u128;
    assert_eq!(runs, 5);
    assert_eq!(t.best().clocks, 10);
    assert_eq!(t.worst().clocks, 70);
    assert!(t.best().clocks as u128 * runs <= t.sum_clocks());
    assert!(t.sum_clocks() <= t.worst().clocks as u128 * runs);
}

#[test]
fn running_total_is_batch_sum() {
    let mut t = started(0);
    let values = [3u64, 9, 4, 12];
    let mut clock: u64 = 1;
    let mut faults: u64 = 100;
    for (i, e) in values.iter().enumerate() {
        t.start_run(clock, faults);
        clock += e;
        faults += i as u64;
        t.end_run(clock, faults);
    }
    assert_eq!(t.sum_clocks(), values.iter().map(|v| *v as u128).sum::<u128>());
    assert_eq!(t.sum_page_faults(), 0 + 1 + 2 + 3);
    assert_eq!(t.trial_count(), 4);
}

#[test]
fn best_and_worst_keep_whole_trial() {
    let mut t = started(0);
    t.start_run(0, 10);
    t.end_run(50, 17);
    t.start_run(60, 20);
    t.end_run(80, 21);
    assert_eq!(t.best(), Metrics { clocks: 20, page_faults: 1 });
    assert_eq!(t.worst(), Metrics { clocks: 50, page_faults: 7 });
}

#[test]
fn first_error_wins() {
    let mut t = started(0);
    t.error("first");
    t.error("second");
    assert_eq!(t.status(), Status::Errored);
    assert_eq!(t.error_message(), Some("first"));
}

#[test]
fn reinit_without_clear_errors() {
    let mut t = started(0);
    t.init("y", 1, 10, FREQ, 0);
    assert_eq!(t.status(), Status::Errored);
    assert_eq!(t.error_message(), Some(MSG_REINIT));
    assert_eq!(t.name(), "x");
}

#[test]
fn double_start_errors() {
    let mut t = started(0);
    t.start_run(1, 0);
    t.start_run(2, 0);
    assert_eq!(t.status(), Status::Errored);
    assert_eq!(t.error_message(), Some(MSG_DOUBLE_START));
}

#[test]
fn start_before_init_errors() {
    let mut t = RepTester::new();
    t.start_run(1, 0);
    assert_eq!(t.status(), Status::Errored);
    assert_eq!(t.error_message(), Some(MSG_INVALID_START));
}

#[test]
fn clock_standing_still_errors() {
    let mut t = started(0);
    t.start_run(100, 0);
    t.end_run(100, 0);
    assert_eq!(t.status(), Status::Errored);
    assert_eq!(t.error_message(), Some(MSG_TIME_TRAVEL));
    assert_eq!(t.trial_count(), 0);
}

#[test]
fn timeout_converts_milliseconds_to_ticks() {
    let mut t = RepTester::new();
    t.init("conv", 0, 250, 3_000_000_000, 1_000);
    assert_eq!(t.timeout(), 750_000_000);
    assert_eq!(t.deadline(), 1_000 + 750_000_000);
    assert_eq!(t.timer_frequency(), 3_000_000_000);
    assert_eq!(t.bytes(), 0);
}

#[test]
fn timeout_saturates() {
    let mut t = RepTester::new();
    t.init("big", 0, u64::MAX, u64::MAX, 5);
    assert_eq!(t.timeout(), u64::MAX);
    assert_eq!(t.deadline(), u64::MAX);
}

#[test]
fn print_throttles_progress() {
    let mut t = started(0);
    t.start_run(0, 0);
    t.end_run(5, 0);
    match t.print() {
        Printout::Progress { header, best } => {
            assert!(header);
            assert_eq!(best.clocks, 5);
        }
        other => panic!("unexpected {:?}", other),
    }
    for _ in 0..9 {
        assert!(matches!(t.print(), Printout::Quiet));
    }
    assert!(matches!(t.print(), Printout::Progress { header: false, .. }));
}

#[test]
fn print_summary_after_finish() {
    let mut t = started(0);
    t.start_run(0, 0);
    t.end_run(8, 2);
    t.start_run(10, 2);
    t.end_run(22, 2);
    assert!(!t.should_continue(u64::MAX));
    match t.print() {
        Printout::Summary { header, best, worst, runs, sum_clocks, sum_page_faults } => {
            assert!(header);
            assert_eq!(best.clocks, 8);
            assert_eq!(worst.clocks, 12);
            assert_eq!(runs, 2);
            assert_eq!(sum_clocks, 20);
            assert_eq!(sum_page_faults, 2);
        }
        other => panic!("unexpected {:?}", other),
    }
    assert!(matches!(t.print(), Printout::Summary { header: false, .. }));
}

#[test]
fn print_reports_error_and_uninit() {
    let mut t = RepTester::new();
    assert!(matches!(t.print(), Printout::NotStarted));
    t.error("broken");
    assert!(matches!(t.print(), Printout::Failure { message: Some("broken") }));
}

#[test]
fn clear_resets() {
    let mut t = started(0);
    t.start_run(0, 0);
    t.end_run(9, 0);
    t.error("stop");
    t.clear();
    assert_eq!(t.status(), Status::Uninit);
    assert_eq!(t.error_message(), None);
    assert_eq!(t.trial_count(), 0);
    assert_eq!(t.best(), Metrics { clocks: u64::MAX, page_faults: u64::MAX });
    assert_eq!(t.worst(), Metrics { clocks: 0, page_faults: 0 });
    assert!(!t.is_running());
    t.init("again", 1, 10, FREQ, 0);
    assert_eq!(t.status(), Status::Testing);
}
