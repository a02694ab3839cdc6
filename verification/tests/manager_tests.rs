use std::cell::RefCell;
use std::collections::VecDeque;
use std::rc::Rc;
use std::hash::Hasher;

use lib::{
    build_sync_request, files_under, CallLog, format_digest, FileProbe, FlushReport, FsNode, SyncError,
    SyncManager, SyncRequest, SyncTransport, TransportEvent,
};

#[derive(Debug, Clone, Copy)]
enum MockOutcome {
    Succeed,
    Fail,
}

struct MockTransport {
    outcomes: VecDeque<MockOutcome>,
    requests: Vec<SyncRequest>,
    record: Vec<TransportEvent>,
}

impl MockTransport {
    fn with_outcomes(outcomes: Vec<MockOutcome>) -> Self {
        Self {
            outcomes: outcomes.into(),
            requests: Vec::new(),
            record: Vec::new(),
        }
    }
}

impl SyncTransport for MockTransport {
    /// The record of calls is `record`; this model of it is read by the
    /// verifier only and never runs.
    fn calls(&self) -> CallLog {
        unreachable!("a model of `record` for the verifier")
    }

    fn health_check(&mut self) -> Result<bool, SyncError> {
        self.record.push(TransportEvent::HealthCheck(Ok(true)));
        Ok(true)
    }

    fn sync_file(&mut self, req: &SyncRequest) -> Result<(), SyncError> {
        self.requests.push(req.clone());
        let outcome = self.outcomes.pop_front().unwrap_or(MockOutcome::Succeed);
        let r = match outcome {
            MockOutcome::Succeed => Ok(()),
            MockOutcome::Fail => Err(SyncError::Server(503, "service unavailable".to_string())),
        };
        self.record.push(TransportEvent::Delivery(req.clone(), r.is_ok()));
        r
    }
}

/// The request for a file with the given content, hashed the way the client
/// hashes files.
fn file_request(path: &str, content: &[u8]) -> Result<SyncRequest, SyncError> {
    let mut hasher = std::collections::hash_map::DefaultHasher::new();
    hasher.write(content);
    build_sync_request(path, FileProbe::Digest(hasher.finish()))
}

fn temp_path(label: &str, name: &str) -> String {
    format!("/tmp/rust-client-{label}/{name}")
}

fn digest_of(content: &[u8]) -> u64 {
    let mut hasher = std::collections::hash_map::DefaultHasher::new();
    hasher.write(content);
    hasher.finish()
}

/// What reading each file of a directory tree gives, in the order the tree
/// lists them, each file's content given beside its path relative to the
/// root.
fn directory_probes(root: &str, tree: &Vec<FsNode>, contents: &[(&str, &[u8])]) -> Vec<FileProbe> {
    match files_under(true, root, tree) {
        Ok(files) => files
            .iter()
            .map(|path| {
                let content = contents
                    .iter()
                    .find(|(p, _)| p == path)
                    .map(|(_, c)| *c)
                    .unwrap_or(b"");
                FileProbe::Digest(digest_of(content))
            })
            .collect(),
        Err(_) => Vec::new(),
    }
}

fn file_node(name: &str) -> FsNode {
    FsNode::File(name.to_string())
}

fn queued_paths<T: SyncTransport>(manager: &SyncManager<T>) -> Vec<String> {
    manager.snapshot_queue().into_iter().map(|r| r.path).collect()
}

#[test]
fn syncs_a_single_file_story_using_mock_transport() {
    let file_path = temp_path("single-file", "todo.txt");
    let transport = MockTransport::with_outcomes(vec![MockOutcome::Succeed]);
    let mut manager = SyncManager::new(transport);

    manager
        .queue_file(file_request(&file_path, b"one file to sync"))
        .expect("single file should be queued");

    let report = manager.flush_once();

    assert_eq!(report.succeeded, 1);
    assert_eq!(report.failed, 0);
    assert_eq!(report.remaining, 0);
}

#[test]
fn syncs_a_directory_story_with_nested_files() {
    let root = temp_path("directory", "");
    let tree = vec![file_node("a.txt"), FsNode::Dir("nested".to_string(), vec![file_node("b.txt")])];
    let probes = directory_probes(&root, &tree, &[("a.txt", b"A"), ("nested/b.txt", b"B")]);
    let transport = MockTransport::with_outcomes(vec![MockOutcome::Succeed, MockOutcome::Succeed]);
    let mut manager = SyncManager::new(transport);

    let queued = manager
        .queue_directory(true, &root, &tree, probes)
        .expect("directory should be traversed and queued");

    assert_eq!(queued, 2);

    let report = manager.flush_once();
    assert_eq!(report.succeeded, 2);
    assert_eq!(report.remaining, 0);
}

#[test]
fn syncs_a_large_file_story_and_streams_hashing() {
    let chunk = vec![b'x'; 1024 * 1024];
    let mut content = Vec::with_capacity(12 * 1024 * 1024);
    for _ in 0..12 {
        content.extend_from_slice(&chunk);
    }

    let transport = MockTransport::with_outcomes(vec![MockOutcome::Succeed]);
    let mut manager = SyncManager::new(transport);
    let request = manager
        .queue_file(file_request(&temp_path("large-file", "large.bin"), &content))
        .expect("large file should be queued");

    assert!(!request.hash.is_empty());

    let report = manager.flush_once();
    assert_eq!(report.succeeded, 1);
    assert_eq!(report.remaining, 0);
}

#[test]
fn keeps_failed_sync_in_queue_for_recovery_story() {
    let transport = MockTransport::with_outcomes(vec![MockOutcome::Fail]);
    let mut manager = SyncManager::new(transport);

    manager
        .queue_file(file_request(&temp_path("failure", "unstable.txt"), b"content"))
        .expect("file should be queued for sync");

    let report = manager.flush_once();

    assert_eq!(report.succeeded, 0);
    assert_eq!(report.failed, 1);
    assert_eq!(manager.pending_count(), 1);
}

#[test]
fn recovers_after_restart_by_restoring_queue_snapshot_story() {
    let first_transport = MockTransport::with_outcomes(vec![MockOutcome::Fail]);
    let mut first_manager = SyncManager::new(first_transport);
    first_manager
        .queue_file(file_request(&temp_path("recovery", "retry.txt"), b"content"))
        .expect("file should be queued");

    let first_report = first_manager.flush_once();
    assert_eq!(first_report.failed, 1);
    assert_eq!(first_manager.pending_count(), 1);

    let snapshot = first_manager.snapshot_queue();

    let second_transport = MockTransport::with_outcomes(vec![MockOutcome::Succeed]);
    let mut recovered_manager = SyncManager::from_snapshot(second_transport, snapshot);

    let second_report = recovered_manager.flush_once();

    assert_eq!(second_report.succeeded, 1);
    assert_eq!(recovered_manager.pending_count(), 0);
}

#[test]
fn returns_invalid_path_error_when_file_does_not_exist() {
    let missing = temp_path("missing-file", "nope.txt");

    let transport = MockTransport::with_outcomes(vec![]);
    let mut manager = SyncManager::new(transport);
    let error = manager
        .queue_file(build_sync_request(&missing, FileProbe::NotAFile))
        .expect_err("missing file should fail queue step");

    match error {
        SyncError::InvalidPath(path) => {
            assert!(path.contains("nope.txt"));
        }
        other => panic!("expected SyncError::InvalidPath, got {other:?}"),
    }
}

#[test]
fn retries_failed_file_on_next_flush_round() {
    let transport = MockTransport::with_outcomes(vec![MockOutcome::Fail, MockOutcome::Succeed]);
    let mut manager = SyncManager::new(transport);

    manager
        .queue_file(file_request(&temp_path("retry", "retry-me.txt"), b"content"))
        .expect("file should be queued for retry test");

    let first = manager.flush_once();
    assert_eq!(first.failed, 1);
    assert_eq!(manager.pending_count(), 1);

    let second = manager.flush_once();
    assert_eq!(second.succeeded, 1);
    assert_eq!(manager.pending_count(), 0);
}

#[test]
fn directory_sync_continues_after_single_file_failure_and_recovers() {
    let root = temp_path("partial-directory", "");
    let tree = vec![file_node("a.txt"), file_node("b.txt"), file_node("c.txt")];
    let probes =
        directory_probes(&root, &tree, &[("a.txt", b"A"), ("b.txt", b"B"), ("c.txt", b"C")]);
    let transport = MockTransport::with_outcomes(vec![
        MockOutcome::Succeed,
        MockOutcome::Fail,
        MockOutcome::Succeed,
        MockOutcome::Succeed,
    ]);
    let mut manager = SyncManager::new(transport);

    manager
        .queue_directory(true, &root, &tree, probes)
        .expect("directory should queue all files");

    let first = manager.flush_once();
    assert_eq!(first.succeeded, 2);
    assert_eq!(first.failed, 1);
    assert_eq!(manager.pending_count(), 1);

    let second = manager.flush_once();
    assert_eq!(second.succeeded, 1);
    assert_eq!(manager.pending_count(), 0);
}

#[test]
fn captures_story_sequence_single_then_directory_then_large() {
    let transport = MockTransport::with_outcomes(vec![
        MockOutcome::Succeed,
        MockOutcome::Succeed,
        MockOutcome::Succeed,
        MockOutcome::Succeed,
    ]);
    let mut manager = SyncManager::new(transport);

    manager
        .queue_file(file_request(&temp_path("story-sequence", "single.txt"), b"single"))
        .expect("single file story step should queue");
    let dir = temp_path("story-sequence", "dir");
    let tree = vec![file_node("one.txt"), file_node("two.txt")];
    let probes = directory_probes(&dir, &tree, &[("one.txt", b"1"), ("two.txt", b"2")]);
    manager
        .queue_directory(true, &dir, &tree, probes)
        .expect("directory story step should queue");
    manager
        .queue_file(file_request(
            &temp_path("story-sequence", "large.dat"),
            &vec![b'z'; 4 * 1024 * 1024],
        ))
        .expect("large file story step should queue");

    let report = manager.flush_once();
    assert_eq!(report.succeeded, 4);
    assert_eq!(report.remaining, 0);
}

fn req(path: &str) -> SyncRequest {
    SyncRequest {
        path: path.to_string(),
        hash: "h".to_string(),
    }
}

#[test]
fn flush_keeps_failures_in_order_and_reports_counts() {
    let transport = MockTransport::with_outcomes(vec![
        MockOutcome::Fail,
        MockOutcome::Succeed,
        MockOutcome::Fail,
        MockOutcome::Succeed,
    ]);
    let mut manager =
        SyncManager::from_snapshot(transport, vec![req("a"), req("b"), req("c"), req("d")]);
    let report = manager.flush_once();
    assert_eq!(
        report,
        FlushReport {
            succeeded: 2,
            failed: 2,
            remaining: 2
        }
    );
    assert_eq!(manager.snapshot_queue(), vec![req("a"), req("c")]);
}

#[test]
fn apply_outcomes_settles_a_round() {
    let transport = MockTransport::with_outcomes(vec![]);
    let mut manager = SyncManager::from_snapshot(transport, vec![req("x"), req("y"), req("z")]);
    let report = manager.apply_outcomes(&vec![true, false, true]);
    assert_eq!(report.succeeded, 2);
    assert_eq!(report.failed, 1);
    assert_eq!(report.remaining, 1);
    assert_eq!(manager.snapshot_queue(), vec![req("y")]);
    let report = manager.apply_outcomes(&vec![true]);
    assert_eq!(report.remaining, 0);
    assert_eq!(manager.pending_count(), 0);
}

#[test]
fn flush_of_empty_queue_reports_nothing() {
    let mut manager = SyncManager::new(MockTransport::with_outcomes(vec![]));
    let report = manager.flush_once();
    assert_eq!(
        report,
        FlushReport {
            succeeded: 0,
            failed: 0,
            remaining: 0
        }
    );
}

#[test]
fn queue_is_first_in_first_out() {
    let mut manager = SyncManager::new(MockTransport::with_outcomes(vec![]));
    manager.queue_file(Ok(req("1"))).unwrap();
    let tree = vec![file_node("2"), file_node("3")];
    let probes = vec![FileProbe::Digest(2), FileProbe::Digest(3)];
    assert_eq!(manager.queue_directory(true, "/r", &tree, probes).unwrap(), 2);
    manager.queue_file(Ok(req("4"))).unwrap();
    assert_eq!(queued_paths(&manager), vec!["1", "2", "3", "4"]);
    let snapshot = manager.snapshot_queue();
    assert_eq!(snapshot[1].hash, format_digest(2));
    assert_eq!(snapshot[2].hash, format_digest(3));
    let _ = manager.flush_once();
}

#[test]
fn directory_queueing_stops_at_first_failure() {
    let mut manager = SyncManager::new(MockTransport::with_outcomes(vec![]));
    let tree = vec![file_node("a"), file_node("b"), file_node("c")];
    let probes = vec![
        FileProbe::Digest(1),
        FileProbe::ReadFailed("denied".to_string()),
        FileProbe::Digest(3),
    ];
    let result = manager.queue_directory(true, "/r", &tree, probes);
    match result {
        Err(SyncError::Io(m)) => assert_eq!(m, "denied"),
        other => panic!("expected the first failure, got {other:?}"),
    }
    assert_eq!(
        manager.snapshot_queue(),
        vec![SyncRequest {
            path: "a".to_string(),
            hash: format_digest(1)
        }]
    );

    let not_a_directory = manager.queue_directory(false, "/nowhere", &vec![], vec![]);
    match not_a_directory {
        Err(SyncError::InvalidPath(p)) => assert_eq!(p, "/nowhere"),
        other => panic!("expected an invalid path, got {other:?}"),
    }
    assert_eq!(manager.pending_count(), 1);
}

#[test]
fn directory_queueing_refuses_an_unreadable_tree_and_queues_nothing() {
    let mut manager = SyncManager::new(MockTransport::with_outcomes(vec![]));
    let tree = vec![file_node("a"), FsNode::Unreadable("permission denied".to_string())];
    let probes = vec![FileProbe::Digest(1)];
    match manager.queue_directory(true, "/r", &tree, probes) {
        Err(SyncError::Io(m)) => assert_eq!(m, "permission denied"),
        other => panic!("expected a file system error, got {other:?}"),
    }
    assert_eq!(manager.pending_count(), 0);
}

#[test]
fn directory_queueing_names_a_vanished_file_by_its_relative_path() {
    let mut manager = SyncManager::new(MockTransport::with_outcomes(vec![]));
    let tree = vec![FsNode::Dir("sub".to_string(), vec![file_node("gone.txt")])];
    match manager.queue_directory(true, "/r", &tree, vec![FileProbe::NotAFile]) {
        Err(SyncError::InvalidPath(p)) => assert_eq!(p, "sub/gone.txt"),
        other => panic!("expected an invalid path, got {other:?}"),
    }
    assert_eq!(manager.pending_count(), 0);
}

#[test]
fn directory_queueing_queues_only_probed_files() {
    let mut manager = SyncManager::new(MockTransport::with_outcomes(vec![]));
    let tree = vec![file_node("a"), file_node("b"), file_node("c")];
    let probes = vec![FileProbe::Digest(1), FileProbe::Digest(2)];
    assert_eq!(manager.queue_directory(true, "/r", &tree, probes).unwrap(), 2);
    assert_eq!(queued_paths(&manager), vec!["a", "b"]);
}

#[test]
fn absolute_directory_queues_paths_relative_to_it() {
    let mut manager = SyncManager::new(MockTransport::with_outcomes(vec![]));
    let tree = vec![file_node("a.txt")];
    let probes = directory_probes("/tmp/d", &tree, &[("a.txt", b"A")]);
    assert_eq!(manager.queue_directory(true, "/tmp/d", &tree, probes).unwrap(), 1);
    let snapshot = manager.snapshot_queue();
    assert_eq!(snapshot[0].path, "a.txt");
    assert!(!snapshot[0].path.starts_with('/'));
    assert_eq!(snapshot[0].hash, format_digest(digest_of(b"A")));
}

#[test]
fn failed_queue_file_leaves_queue_unchanged() {
    let mut manager = SyncManager::new(MockTransport::with_outcomes(vec![]));
    let r = manager.queue_file(build_sync_request("/f", FileProbe::ReadFailed("denied".to_string())));
    match r {
        Err(SyncError::Io(m)) => assert_eq!(m, "denied"),
        other => panic!("expected a file system error, got {other:?}"),
    }
    assert_eq!(manager.pending_count(), 0);
}

#[test]
fn health_check_goes_to_transport_and_keeps_queue() {
    let mut manager = SyncManager::from_snapshot(MockTransport::with_outcomes(vec![]), vec![req("a")]);
    assert_eq!(manager.health_check().unwrap(), true);
    assert_eq!(manager.pending_count(), 1);
}

#[test]
fn digest_is_sixteen_lower_case_hex_digits() {
    assert_eq!(format_digest(0), "0000000000000000");
    assert_eq!(format_digest(255), "00000000000000ff");
    assert_eq!(format_digest(0x0123_4567_89ab_cdef), "0123456789abcdef");
    assert_eq!(format_digest(u64::MAX), "ffffffffffffffff");
    let digest: u64 = 0xdead_beef;
    assert_eq!(format_digest(digest), format!("{:016x}", digest));
}

#[test]
fn build_sync_request_keeps_path_and_formats_hash() {
    let r = build_sync_request("dir/a.txt", FileProbe::Digest(0xabc)).unwrap();
    assert_eq!(r.path, "dir/a.txt");
    assert_eq!(r.hash, "0000000000000abc");
    match build_sync_request("dir", FileProbe::NotAFile) {
        Err(SyncError::InvalidPath(p)) => assert_eq!(p, "dir"),
        other => panic!("expected an invalid path, got {other:?}"),
    }
}

#[test]
fn walk_is_depth_first_in_listing_order() {
    let tree = vec![
        file_node("a"),
        FsNode::Dir(
            "d".to_string(),
            vec![
                file_node("x"),
                FsNode::Other("socket".to_string()),
                FsNode::Dir("e".to_string(), vec![file_node("y")]),
            ],
        ),
        FsNode::Dir("empty".to_string(), vec![]),
        file_node("b"),
    ];
    let files = files_under(true, "/abs/r", &tree).unwrap();
    assert_eq!(files, vec!["a", "d/x", "d/e/y", "b"]);
}

#[test]
fn walk_stops_at_first_unreadable_entry() {
    let tree = vec![
        file_node("a"),
        FsNode::Dir(
            "d".to_string(),
            vec![FsNode::Unreadable("permission denied".to_string())],
        ),
        FsNode::Unreadable("later".to_string()),
    ];
    match files_under(true, "r", &tree) {
        Err(SyncError::Io(m)) => assert_eq!(m, "permission denied"),
        other => panic!("expected a file system error, got {other:?}"),
    }
}

#[test]
fn walk_refuses_a_root_that_is_not_a_directory() {
    match files_under(false, "r/file.txt", &vec![]) {
        Err(SyncError::InvalidPath(p)) => assert_eq!(p, "r/file.txt"),
        other => panic!("expected an invalid path, got {other:?}"),
    }
    assert_eq!(files_under(true, "r", &vec![]).unwrap(), Vec::<String>::new());
}

/// A transport that records, in a log shared with the test, each request
/// it is handed; the first delivery fails and the rest succeed.
struct RecordingTransport {
    log: Rc<RefCell<Vec<SyncRequest>>>,
    record: Vec<TransportEvent>,
}

impl SyncTransport for RecordingTransport {
    /// The record of calls is `record`; this model of it is read by the
    /// verifier only and never runs.
    fn calls(&self) -> CallLog {
        unreachable!("a model of `record` for the verifier")
    }

    fn health_check(&mut self) -> Result<bool, SyncError> {
        self.record.push(TransportEvent::HealthCheck(Ok(false)));
        Ok(false)
    }

    fn sync_file(&mut self, req: &SyncRequest) -> Result<(), SyncError> {
        let first = self.log.borrow().is_empty();
        self.log.borrow_mut().push(req.clone());
        let r = if first {
            Err(SyncError::Connection("reset".to_string()))
        } else {
            Ok(())
        };
        self.record.push(TransportEvent::Delivery(req.clone(), r.is_ok()));
        r
    }
}

#[test]
fn flush_hands_each_request_to_transport_in_order() {
    let log = Rc::new(RefCell::new(Vec::new()));
    let transport = RecordingTransport { log: Rc::clone(&log), record: Vec::new() };
    let mut manager = SyncManager::from_snapshot(transport, vec![req("p"), req("q"), req("r")]);
    let first = manager.flush_once();
    assert_eq!(first.failed, 1);
    let second = manager.flush_once();
    assert_eq!(second.succeeded, 1);
    assert_eq!(*log.borrow(), vec![req("p"), req("q"), req("r"), req("p")]);
    assert_eq!(manager.health_check().unwrap(), false);
    assert_eq!(log.borrow().len(), 4);
}

#[test]
fn request_failing_a_bounded_number_of_times_drains() {
    let transport = MockTransport::with_outcomes(vec![
        MockOutcome::Fail,
        MockOutcome::Succeed,
        MockOutcome::Fail,
        MockOutcome::Succeed,
    ]);
    let mut manager = SyncManager::from_snapshot(transport, vec![req("a"), req("b")]);
    let mut delivered = 0;
    for _ in 0..3 {
        delivered += manager.flush_once().succeeded;
    }
    assert_eq!(manager.pending_count(), 0);
    assert_eq!(delivered, 2);
}

#[test]
fn pending_count_balances_queued_against_delivered() {
    let transport = MockTransport::with_outcomes(vec![
        MockOutcome::Succeed,
        MockOutcome::Fail,
        MockOutcome::Succeed,
        MockOutcome::Succeed,
    ]);
    let mut manager = SyncManager::from_snapshot(transport, vec![req("s")]);
    let mut taken_in = 1;
    let mut delivered = 0;
    manager.queue_file(Ok(req("f"))).unwrap();
    taken_in += 1;
    let tree = vec![file_node("x"), file_node("y")];
    taken_in += manager
        .queue_directory(true, "/r", &tree, vec![FileProbe::Digest(1), FileProbe::Digest(2)])
        .unwrap();
    assert_eq!(manager.pending_count(), taken_in - delivered);
    delivered += manager.flush_once().succeeded;
    assert_eq!(manager.pending_count(), taken_in - delivered);
    let _ = manager.health_check();
    assert_eq!(manager.pending_count(), taken_in - delivered);
    delivered += manager.flush_once().succeeded;
    assert_eq!(manager.pending_count(), taken_in - delivered);
    assert_eq!(manager.pending_count(), 0);
}

#[test]
fn relative_directory_queues_paths_through_it() {
    let mut manager = SyncManager::new(MockTransport::with_outcomes(vec![]));
    let tree = vec![FsNode::Dir("sub".to_string(), vec![file_node("one.txt")])];
    let probes = vec![FileProbe::Digest(1)];
    assert_eq!(manager.queue_directory(true, "dir", &tree, probes).unwrap(), 1);
    let probes = vec![FileProbe::Digest(2)];
    assert_eq!(manager.queue_directory(true, "dir/", &tree, probes).unwrap(), 1);
    assert_eq!(queued_paths(&manager), vec!["dir/sub/one.txt", "dir/sub/one.txt"]);
    match manager.queue_directory(true, "dir", &tree, vec![FileProbe::NotAFile]) {
        Err(SyncError::InvalidPath(p)) => assert_eq!(p, "dir/sub/one.txt"),
        other => panic!("expected an invalid path, got {other:?}"),
    }
}

#[test]
fn bounded_failures_drain_a_queue_that_already_holds_failures() {
    let transport = MockTransport::with_outcomes(vec![
        MockOutcome::Fail,
        MockOutcome::Fail,
        MockOutcome::Fail,
        MockOutcome::Succeed,
        MockOutcome::Succeed,
    ]);
    let mut manager = SyncManager::from_snapshot(transport, vec![req("a"), req("b")]);
    let first = manager.flush_once();
    assert_eq!(first.failed, 2);
    let mut delivered = 0;
    for _ in 0..2 {
        delivered += manager.flush_once().succeeded;
    }
    assert_eq!(delivered, 2);
    assert_eq!(manager.pending_count(), 0);
}
