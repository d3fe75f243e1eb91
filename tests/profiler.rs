use perf_harness::{finish_end_print_root_profile, mark_scope, start_profile, Anchor, Profiler};

const A: u32 = 1;
const B: u32 = 2;
const C: u32 = 3;

fn session(now: u64) -> Option<Profiler> {
    let mut s = None;
    start_profile(&mut s, now);
    s
}

#[test]
fn nested_scopes_split_time() {
    let mut s = session(0);
    let p = s.as_mut().unwrap();
    let a = mark_scope(p, A, 0, 0);
    let b = mark_scope(p, B, 0, 1000);
    b.close(p, 2000);
    a.close(p, 3000);
    let pa = p.anchor(A);
    let pb = p.anchor(B);
    assert_eq!(pa.exclusive, 2000);
    assert_eq!(pa.inclusive, 3000);
    assert_eq!(pb.exclusive, 1000);
    assert_eq!(pb.inclusive, 1000);
    assert_eq!(pa.occurance(), 1);
    assert_eq!(p.current_scope(), 0);
}

#[test]
fn top_level_time_within_session() {
    let mut s = session(100);
    let p = s.as_mut().unwrap();
    let a = mark_scope(p, A, 0, 150);
    let c = mark_scope(p, C, 0, 160);
    c.close(p, 190);
    a.close(p, 400);
    let b = mark_scope(p, B, 0, 420);
    b.close(p, 700);
    let a = mark_scope(p, A, 0, 710);
    a.close(p, 760);
    let end = 800;
    let total = end - p.root_start();
    let top = p.anchor(A).inclusive + p.anchor(B).inclusive;
    assert_eq!(p.anchor(A).inclusive, 250 + 50);
    assert_eq!(p.anchor(A).exclusive, 250 + 50 - 30);
    assert_eq!(p.anchor(A).occurance, 2);
    assert!(top <= total);
    for id in [A, B, C] {
        let x: Anchor = p.anchor(id);
        assert!(x.exclusive <= x.inclusive);
    }
}

#[test]
fn bytes_accumulate_per_label() {
    let mut s = session(0);
    let p = s.as_mut().unwrap();
    let a = mark_scope(p, A, 64, 1);
    a.close(p, 2);
    let a = mark_scope(p, A, 36, 3);
    a.close(p, 4);
    assert_eq!(p.anchor(A).processed_bytes, 100);
    assert_eq!(p.anchor(A).occurance, 2);
}

#[test]
fn fresh_session_is_empty() {
    let s = session(42);
    let p = s.as_ref().unwrap();
    assert_eq!(p.root_start(), 42);
    assert_eq!(p.anchor(A), Anchor::empty());
}

#[test]
fn finish_reports_used_labels_and_ends_session() {
    let mut s = session(10);
    {
        let p = s.as_mut().unwrap();
        let a = mark_scope(p, A, 1024, 20);
        let b = mark_scope(p, B, 0, 30);
        b.close(p, 50);
        a.close(p, 70);
    }
    let labels = [(A, "A"), (B, "B"), (C, "C")];
    let report = finish_end_print_root_profile(&mut s, &labels, 110);
    assert!(s.is_none());
    assert_eq!(report.total_clocks, 100);
    assert_eq!(report.scopes.len(), 2);
    assert_eq!(report.scopes[0].name, "A");
    assert_eq!(report.scopes[0].inclusive, 50);
    assert_eq!(report.scopes[0].exclusive, 30);
    assert_eq!(report.scopes[0].processed_bytes, 1024);
    assert_eq!(report.scopes[0].occurrences, 1);
    assert_eq!(report.scopes[1].name, "B");
    assert_eq!(report.scopes[1].inclusive, 20);
    // a new session can start once the old one is finished
    start_profile(&mut s, 200);
    assert!(s.is_some());
}

#[test]
fn parent_subtraction_wraps() {
    let mut s = session(0);
    let p = s.as_mut().unwrap();
    let a = mark_scope(p, A, 0, 0);
    let b = mark_scope(p, B, 0, 0);
    b.close(p, 500);
    // while A is open its own time has been charged with B's ticks
    assert_eq!(p.anchor(A).exclusive, 0u64.wrapping_sub(500));
    a.close(p, 600);
    assert_eq!(p.anchor(A).exclusive, 100);
}
