use heartbeat_rs::paths::FilePath;
use heartbeat_rs::ring_log::{LogRequest, RingLog, PTY_LOG_MAX_BYTES};
use std::collections::BTreeMap;

/// A directory of files in memory, and the name of the one that is open.
struct Files {
    files: BTreeMap<String, Vec<u8>>,
    open: String,
    renames: bool,
    reopens: bool,
    restarts: bool,
    appends: bool,
    asked: Vec<LogRequest>,
}

impl Files {
    fn new(log: &RingLog) -> Files {
        let mut files = BTreeMap::new();
        files.insert(log.path.clone(), Vec::new());
        Files {
            files,
            open: log.path.clone(),
            renames: true,
            reopens: true,
            restarts: true,
            appends: true,
            asked: Vec::new(),
        }
    }

    fn text(&self, path: &str) -> String {
        String::from_utf8(self.files[path].clone()).unwrap()
    }

    fn size(&self, path: &str) -> usize {
        self.files.get(path).map_or(0, |bytes| bytes.len())
    }

    fn current(&mut self) -> &mut Vec<u8> {
        self.files.get_mut(&self.open).unwrap()
    }

    /// Writes `data`; false where logging is to stop.
    fn write(&mut self, log: &mut RingLog, data: &[u8]) -> bool {
        let mut request = log.write(data.len() as u64);
        loop {
            self.asked.push(request);
            let ok = match request {
                LogRequest::Restart => {
                    if self.restarts {
                        self.current().clear();
                    }
                    self.restarts
                }
                LogRequest::Append => {
                    if self.appends {
                        self.current().extend_from_slice(data);
                    }
                    self.appends
                }
                LogRequest::Rename => {
                    if self.renames {
                        let bytes = self.files.remove(&log.path).unwrap();
                        self.files.insert(log.rotated_path.clone(), bytes);
                        // The file that is open stays the same one, under its new name.
                        self.open = log.rotated_path.clone();
                    }
                    self.renames
                }
                LogRequest::Reopen => {
                    if self.reopens {
                        self.files.insert(log.path.clone(), Vec::new());
                        self.open = log.path.clone();
                    }
                    self.reopens
                }
                LogRequest::Resume => {
                    self.open = log.rotated_path.clone();
                    true
                }
                LogRequest::Done => return true,
                LogRequest::GiveUp => return false,
            };
            request = log.step(ok);
        }
    }
}

#[test]
fn ring_log_rotation_keeps_most_recent_bytes_drops_oldest_head() {
    let mut log = RingLog::open_with_cap_half(&FilePath::unix("/logs"), 123, 456, 48);
    let mut files = Files::new(&log);

    let chunk = |n: u8| -> Vec<u8> {
        let s = format!("chunk{n}-aaaaaaaaa");
        assert_eq!(s.len(), 16, "test fixture chunk must be exactly 16 bytes");
        s.into_bytes()
    };

    for n in 1..=7 {
        assert!(files.write(&mut log, &chunk(n)), "write chunk{n}");
    }

    assert_eq!(
        files.files.len(),
        2,
        "expected active + one rotated file, found: {:?}",
        files.files.keys()
    );

    let active = files.text(&log.path);
    let rotated = files.text(&log.rotated_path);
    let combined = format!("{rotated}{active}");

    for oldest in ["chunk1-", "chunk2-", "chunk3-"] {
        assert!(
            !combined.contains(oldest),
            "{oldest} is from the oldest rotated-out chunk and must be dropped, \
             got combined content: {combined:?}"
        );
    }
    for newest in ["chunk4-", "chunk5-", "chunk6-", "chunk7-"] {
        assert!(
            combined.contains(newest),
            "{newest} is recent output and must survive the cap, \
             got combined content: {combined:?}"
        );
    }
    assert!(
        active.contains("chunk7-"),
        "the active file specifically must hold the very latest write, got: {active:?}"
    );
}

#[test]
fn ring_log_stops_growing_when_rotation_fails() {
    let mut log = RingLog::open_with_cap_half(&FilePath::unix("/logs"), 123, 456, 64);
    let mut files = Files::new(&log);
    files.renames = false;

    for _ in 0..200 {
        assert!(
            files.write(&mut log, b"0123456789012345"),
            "write must not error even when rotation is broken"
        );
        assert!(files.size(&log.path) <= 64);
    }

    let size = files.size(&log.path);
    assert!(
        size <= 64,
        "the cap must hold even when rotation fails: active file grew to {size} bytes against \
         cap_half=64 (wrote 3200 bytes total)"
    );
    assert!(files.files[&log.path].ends_with(b"0123456789012345"));
}

#[test]
fn a_full_file_that_cannot_be_emptied_takes_no_more() {
    let mut log = RingLog::open_with_cap_half(&FilePath::unix("/logs"), 123, 456, 32);
    let mut files = Files::new(&log);
    files.renames = false;
    files.restarts = false;
    for _ in 0..10 {
        assert!(files.write(&mut log, b"0123456789012345"));
    }
    assert_eq!(files.size(&log.path), 32);

    files.restarts = true;
    files.renames = true;
    assert!(files.write(&mut log, b"fresh"));
    assert_eq!(files.text(&log.path), "fresh");
}

#[test]
fn a_failed_reopen_goes_on_in_the_rotated_file() {
    let mut log = RingLog::open_with_cap_half(&FilePath::unix("/logs"), 123, 456, 32);
    let mut files = Files::new(&log);
    files.reopens = false;
    assert!(files.write(&mut log, b"first-----------"));
    assert!(files.write(&mut log, b"second----------"));
    assert_eq!(
        files.asked,
        [
            LogRequest::Append,
            LogRequest::Done,
            LogRequest::Append,
            LogRequest::Rename,
            LogRequest::Reopen,
            LogRequest::Resume,
            LogRequest::Done,
        ]
    );
    // Nothing is lost, and there is no active file.
    assert_eq!(files.files.len(), 1);
    assert_eq!(files.text(&log.rotated_path), "first-----------second----------");

    // The next write makes room in the rotated file.
    assert!(files.write(&mut log, b"third-----------"));
    assert_eq!(files.text(&log.rotated_path), "third-----------");

    // Once it is full again, there is nothing to rename: only a fresh file is asked for.
    files.reopens = true;
    files.asked.clear();
    assert!(files.write(&mut log, b"fourth----------"));
    assert_eq!(files.asked, [LogRequest::Append, LogRequest::Reopen, LogRequest::Done]);
    assert_eq!(files.text(&log.rotated_path), "third-----------fourth----------");
    assert!(files.write(&mut log, b"fifth"));
    assert_eq!(files.text(&log.path), "fifth");
}

#[test]
fn a_reopen_that_always_fails_keeps_to_the_cap() {
    let mut log = RingLog::open_with_cap_half(&FilePath::unix("/logs"), 123, 456, 64);
    let mut files = Files::new(&log);
    files.reopens = false;
    for _ in 0..200 {
        assert!(files.write(&mut log, b"0123456789012345"));
        assert!(files.size(&log.rotated_path) <= 64);
    }
    let renames = files.asked.iter().filter(|r| **r == LogRequest::Rename).count();
    assert_eq!(renames, 1, "a renamed file is not renamed again");
}

#[test]
fn a_failed_append_ends_the_logging() {
    let mut log = RingLog::open_with_cap_half(&FilePath::unix("/logs"), 123, 456, 32);
    let mut files = Files::new(&log);
    files.appends = false;
    assert!(!files.write(&mut log, b"data"));
}

#[test]
fn rotation_starts_at_the_threshold() {
    let mut log = RingLog::open_with_cap_half(&FilePath::unix("/logs"), 1, 2, 10);
    assert_eq!(log.write(9), LogRequest::Append);
    assert_eq!(log.step(true), LogRequest::Done);
    assert_eq!(log.write(1), LogRequest::Append);
    assert_eq!(log.step(true), LogRequest::Rename);
    assert_eq!(log.step(true), LogRequest::Reopen);
    assert_eq!(log.step(true), LogRequest::Done);
    assert_eq!(log.write(9), LogRequest::Append);
    assert_eq!(log.step(true), LogRequest::Done);
}

#[test]
fn the_files_hold_the_end_of_the_output() {
    let mut log = RingLog::open_with_cap_half(&FilePath::unix("/logs"), 1, 2, 50);
    let mut files = Files::new(&log);
    let mut all: Vec<u8> = Vec::new();
    for i in 0..200u32 {
        let data = vec![(i % 251) as u8; (i % 23) as usize];
        assert!(files.write(&mut log, &data));
        all.extend_from_slice(&data);
        let mut kept = files.files.get(&log.rotated_path).cloned().unwrap_or_default();
        kept.extend_from_slice(&files.files[&log.path]);
        assert!(all.ends_with(&kept));
        assert!(kept.len() == all.len() || kept.len() >= 50);
        assert!(files.size(&log.path) < 50);
    }
}

#[test]
fn logs_are_named_by_time_and_process() {
    let log = RingLog::open(&FilePath::unix("/var/log"), 1778855000123, 4321);
    assert_eq!(log.path, "/var/log/heartbeat-launch-pty-1778855000123-4321.log");
    assert_eq!(log.rotated_path, "/var/log/heartbeat-launch-pty-1778855000123-4321.log.1");
}

#[test]
fn a_production_log_rotates_at_half_the_cap() {
    let mut log = RingLog::open(&FilePath::unix("/var/log"), 1, 2);
    let half = PTY_LOG_MAX_BYTES / 2;
    assert_eq!(half, 5_242_880);
    assert_eq!(log.write(half - 1), LogRequest::Append);
    assert_eq!(log.step(true), LogRequest::Done);
    assert_eq!(log.write(1), LogRequest::Append);
    assert_eq!(log.step(true), LogRequest::Rename);
}
