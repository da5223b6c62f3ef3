use timer_tree::{TimerError, TimerTree};

#[test]
fn test_timer() {
    let mut timer_tree = TimerTree::default();
    {
        let a = timer_tree.open("a");
        {
            let ab = a.open("b", &mut timer_tree);
            {
                let abc = ab.open("c", &mut timer_tree);
                abc.close(&mut timer_tree).unwrap();
            }
            {
                let abd = ab.open("d", &mut timer_tree);
                abd.close(&mut timer_tree).unwrap();
            }
            ab.close(&mut timer_tree).unwrap();
        }
        a.close(&mut timer_tree).unwrap();
    }
    assert_eq!(timer_tree.timings().len(), 4);
}

#[test]
fn nested_scopes_record_in_completion_order() {
    // open "a"; inside it "b"; inside "b" open and close "c", then "d";
    // close "b"; close "a". Expected: c(2), d(2), b(1), a(0).
    let mut tree = TimerTree::default();
    let a = tree.open("a");
    let b = a.open("b", &mut tree);
    let c = b.open("c", &mut tree);
    c.close(&mut tree).unwrap();
    let d = b.open("d", &mut tree);
    d.close(&mut tree).unwrap();
    b.close(&mut tree).unwrap();
    a.close(&mut tree).unwrap();

    let records = tree.timings();
    assert_eq!(records.len(), 4);
    assert_eq!(records[0].name, "c");
    assert_eq!(records[0].depth, 2);
    assert_eq!(records[1].name, "d");
    assert_eq!(records[1].depth, 2);
    assert_eq!(records[2].name, "b");
    assert_eq!(records[2].depth, 1);
    assert_eq!(records[3].name, "a");
    assert_eq!(records[3].depth, 0);
}

#[test]
fn one_record_per_closed_timer() {
    // Five timers in a mixed arrangement: five records, no more, no fewer.
    let mut tree = TimerTree::default();
    let first = tree.open("first");
    first.close(&mut tree).unwrap();
    assert_eq!(tree.len(), 1);
    let second = tree.open("second");
    let inner = second.open("inner", &mut tree);
    let deepest = inner.open("deepest", &mut tree);
    deepest.close(&mut tree).unwrap();
    inner.close(&mut tree).unwrap();
    let sibling = second.open("sibling", &mut tree);
    sibling.close(&mut tree).unwrap();
    second.close(&mut tree).unwrap();
    assert_eq!(tree.len(), 5);
}

#[test]
fn durations_are_non_negative() {
    let mut tree = TimerTree::default();
    let outer = tree.open("outer");
    let inner = outer.open("inner", &mut tree);
    inner.close(&mut tree).unwrap();
    outer.close(&mut tree).unwrap();
    for t in tree.timings() {
        assert!(t.duration >= 0);
    }
}

#[test]
fn total_time_is_last_record() {
    let mut tree = TimerTree::default();
    tree.record("a", 1, Some(5)).unwrap();
    tree.record("root", 0, Some(42)).unwrap();
    assert_eq!(tree.total_time(), 42);
}

#[test]
fn negative_measurement_is_clock_anomaly() {
    let mut tree = TimerTree::default();
    let r = tree.record("bad", 0, Some(-1));
    assert_eq!(r, Err(TimerError::ClockAnomaly));
    assert_eq!(tree.len(), 0);
}

#[test]
fn missing_measurement_is_clock_anomaly() {
    let mut tree = TimerTree::default();
    let r = tree.record("bad", 0, None);
    assert_eq!(r, Err(TimerError::ClockAnomaly));
    assert_eq!(tree.len(), 0);
}

#[test]
fn record_keeps_accepted_measurement() {
    let mut tree = TimerTree::default();
    assert_eq!(tree.record("task", 3, Some(17)), Ok(17));
    let records = tree.timings();
    assert_eq!(records.len(), 1);
    assert_eq!(records[0].name, "task");
    assert_eq!(records[0].duration, 17);
    assert_eq!(records[0].depth, 3);
}

#[test]
fn sibling_root_timers_share_one_tree() {
    let mut tree = TimerTree::default();
    let x = tree.open("x");
    x.close(&mut tree).unwrap();
    let y = tree.open("y");
    y.close(&mut tree).unwrap();
    let records = tree.timings();
    assert_eq!(records.len(), 2);
    assert_eq!(records[0].name, "x");
    assert_eq!(records[0].depth, 0);
    assert_eq!(records[1].name, "y");
    assert_eq!(records[1].depth, 0);
}
