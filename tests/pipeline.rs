use custom_nosql_cdn::logging::{
    batch_lines, Level, LogDate, LogEntry, LogPipeline, LogWorker, WorkerEvent, BATCH_LIMIT,
    DEFAULT_CAPACITY,
};

fn entry(i: usize) -> LogEntry {
    LogEntry {
        level: "INFO".to_string(),
        message: format!("m{}", i),
        timestamp: format!("2024-01-01T00:00:{:02}+00:00", i % 60),
    }
}

fn day(d: u32) -> LogDate {
    LogDate { year: 2024, month: 1, day: d }
}

#[test]
fn line_format() {
    let e = LogEntry {
        level: "WARN".to_string(),
        message: "disk low".to_string(),
        timestamp: "2024-01-01T00:00:00+00:00".to_string(),
    };
    assert_eq!(e.line(), b"2024-01-01T00:00:00+00:00 [WARN] disk low\n".to_vec());
    let both = batch_lines(&vec![entry(1), entry(2)]);
    let text = String::from_utf8(both).unwrap();
    assert_eq!(text, "2024-01-01T00:00:01+00:00 [INFO] m1\n2024-01-01T00:00:02+00:00 [INFO] m2\n");
}

#[test]
fn level_filter() {
    assert!(Level::Error.passes(Level::Info));
    assert!(Level::Warn.passes(Level::Info));
    assert!(Level::Info.passes(Level::Info));
    assert!(!Level::Debug.passes(Level::Info));
    assert!(!Level::Trace.passes(Level::Info));
    assert!(!Level::Warn.passes(Level::Error));
}

#[test]
fn pipeline_keeps_three_in_order() {
    let mut p = LogPipeline::new(DEFAULT_CAPACITY, Level::Info);
    for i in 0..3 {
        let sent = p.log(Level::Info, entry(i));
        assert_eq!(sent.unwrap().message, format!("m{}", i));
    }
    let logs = p.get_logs();
    let msgs: Vec<String> = logs.iter().map(|e| e.message.clone()).collect();
    assert_eq!(msgs, vec!["m0", "m1", "m2"]);
}

#[test]
fn pipeline_drops_filtered_entries() {
    let mut p = LogPipeline::new(DEFAULT_CAPACITY, Level::Info);
    assert!(p.log(Level::Debug, entry(0)).is_none());
    assert!(p.get_logs().is_empty());
}

#[test]
fn pipeline_never_exceeds_capacity() {
    let mut p = LogPipeline::new(DEFAULT_CAPACITY, Level::Info);
    for i in 0..250 {
        p.log(Level::Error, entry(i));
        assert!(p.get_logs().len() <= 100);
    }
    let logs = p.get_logs();
    assert_eq!(logs.len(), 100);
    assert_eq!(logs[0].message, "m150");
    assert_eq!(logs[99].message, "m249");
}

#[test]
fn size_triggered_flush_on_burst() {
    let mut w = LogWorker::new(day(1));
    let mut flushes = Vec::new();
    for i in 0..BATCH_LIMIT + 1 {
        let step = w.step(WorkerEvent::Received(entry(i)), day(1));
        assert!(!step.rotate && !step.stop);
        if !step.flush.is_empty() {
            flushes.push((i, step.flush.len()));
        }
    }
    assert_eq!(flushes, vec![(499, 500)]);
}

#[test]
fn timeout_flushes_single_entry() {
    let mut w = LogWorker::new(day(1));
    let s1 = w.step(WorkerEvent::Received(entry(7)), day(1));
    assert!(s1.flush.is_empty());
    let s2 = w.step(WorkerEvent::Timeout, day(1));
    assert_eq!(s2.flush.len(), 1);
    assert_eq!(s2.flush[0].message, "m7");
    let s3 = w.step(WorkerEvent::Timeout, day(1));
    assert!(s3.flush.is_empty());
}

#[test]
fn disconnect_flushes_and_stops() {
    let mut w = LogWorker::new(day(1));
    w.step(WorkerEvent::Received(entry(1)), day(1));
    w.step(WorkerEvent::Received(entry(2)), day(1));
    let s = w.step(WorkerEvent::Disconnected, day(1));
    assert!(s.stop);
    assert_eq!(s.flush.len(), 2);
}

#[test]
fn rotates_when_day_changes() {
    let mut w = LogWorker::new(day(1));
    let s = w.step(WorkerEvent::Timeout, day(2));
    assert!(s.rotate);
    assert_eq!(w.file_date(), day(2));
    let s = w.step(WorkerEvent::Timeout, day(2));
    assert!(!s.rotate);
}
