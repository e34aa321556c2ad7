use simple_downloader::path::{
    file_name_of, path_key, with_extension, with_file_name, with_suffix,
};
use simple_downloader::queue::{PauseOutcome, QueueError, QueueState, RenameSearch};
use simple_downloader::task::{Task, TaskId, TaskSnapshot, TaskState};
use std::path::Path;

fn put(q: &mut QueueState, id: u128, path: &str) -> bool {
    q.try_enqueue(TaskId(id), "http://a/f".to_string(), path.to_string(), 4, false, 1)
}

fn state(q: &QueueState, id: u128) -> TaskState {
    q.query(TaskId(id)).unwrap().state
}

#[test]
fn with_suffix_basic() {
    assert_eq!(with_suffix("a.bin", 1), "a(1).bin");
    assert_eq!(with_suffix("a", 1), "a(1)");
    assert_eq!(with_suffix("a.tar.gz", 1), "a.tar(1).gz");
    assert_eq!(with_suffix(".gitignore", 1), ".gitignore(1)");
    assert_eq!(with_suffix("dir/a.bin", 1), "dir/a(1).bin");
}

#[test]
fn state_machine_terminal() {
    assert!(!TaskState::Queued.is_terminal());
    assert!(!TaskState::Active.is_terminal());
    assert!(!TaskState::Paused.is_terminal());
    assert!(TaskState::Failed("x".into()).is_terminal());
    assert!(TaskState::Completed.is_terminal());
    assert!(TaskState::Removed.is_terminal());
}

#[test]
fn task_id_unique() {
    let a = TaskId::new();
    let b = TaskId::new();
    assert_ne!(a, b);
}

#[test]
fn random_ids_are_marked_as_such() {
    let id = TaskId::default();
    assert_eq!((id.0 >> 76) & 0xf, 4);
    assert_eq!((id.0 >> 62) & 0x3, 2);
}

#[test]
fn ids_are_written_in_groups() {
    let id = TaskId(0x550e8400_e29b_41d4_a716_446655440000);
    assert_eq!(id.to_text(), "550e8400-e29b-41d4-a716-446655440000");
    assert_eq!(TaskId(0).to_text(), "00000000-0000-0000-0000-000000000000");
    assert_eq!(TaskId(0xabcdef).to_text(), "00000000-0000-0000-0000-000000abcdef");
}

#[test]
fn ids_are_read_in_all_their_forms() {
    let want = 0x550e8400_e29b_41d4_a716_446655440000u128;
    for text in [
        "550e8400-e29b-41d4-a716-446655440000",
        "550E8400-E29B-41D4-A716-446655440000",
        "550e8400e29b41d4a716446655440000",
        "{550e8400-e29b-41d4-a716-446655440000}",
        "urn:uuid:550e8400-e29b-41d4-a716-446655440000",
        "URN:UUID:550e8400-e29b-41d4-a716-446655440000",
    ] {
        assert_eq!(TaskId::from_str(text).unwrap(), TaskId(want));
    }
}

#[test]
fn texts_that_are_no_ids_are_refused() {
    for text in [
        "",
        "550e8400-e29b-41d4-a716-44665544000",
        "550e8400-e29b-41d4-a716_446655440000",
        "550e8400e29b-41d4-a716-4466-55440000",
        "{550e8400e29b41d4a716446655440000}",
        "550e8400e29b41d4a71644665544000g",
        "urn:guid:550e8400-e29b-41d4-a716-446655440000",
        "550e8400e29b41d4a71644665544000é",
    ] {
        let e = TaskId::from_str(text).unwrap_err();
        assert!(!e.reason.is_empty());
    }
}

#[test]
fn id_texts_round_trip() {
    let id = TaskId::new();
    assert_eq!(TaskId::from_str(&id.to_text()).unwrap(), id);
}

#[test]
fn a_snapshot_tells_what_the_task_is() {
    let t = Task::new("u".to_string(), "p".to_string(), 3, 9);
    let s = TaskSnapshot::from(&t);
    assert_eq!(s.id, t.id);
    assert_eq!((s.url.as_str(), s.output_path.as_str()), ("u", "p"));
    assert_eq!(s.state, TaskState::Queued);
    assert_eq!((s.downloaded, s.total_size, s.workers), (0, 0, 3));
    assert_eq!(t.created_at, 9);
}

#[test]
fn tasks_start_in_order_and_no_more_than_allowed() {
    let mut q = QueueState::with_max_concurrent(3);
    for i in 0..10 {
        assert!(put(&mut q, i, &format!("out{}.bin", i)));
    }
    let mut started = vec![];
    while let Some(t) = q.pump() {
        assert_eq!(t.state, TaskState::Active);
        started.push(t.id.0);
    }
    assert_eq!(started, vec![0, 1, 2]);
    assert_eq!(q.active_count(), 3);
    assert_eq!(q.queued_len(), 7);
    q.on_complete(TaskId(1), None);
    assert_eq!(state(&q, 1), TaskState::Completed);
    assert_eq!(q.pump().unwrap().id, TaskId(3));
    assert!(q.pump().is_none());
}

#[test]
fn the_number_of_tasks_at_once_is_bounded() {
    assert_eq!(QueueState::new().max, 3);
    assert_eq!(QueueState::with_max_concurrent(0).max, 1);
    assert_eq!(QueueState::with_max_concurrent(200).max, 64);
}

#[test]
fn a_paused_task_comes_back_first() {
    let mut q = QueueState::with_max_concurrent(1);
    for i in 0..3 {
        assert!(put(&mut q, i, &format!("out{}.bin", i)));
    }
    let _ = q.pump();
    assert_eq!(q.pause(TaskId(0)).unwrap(), PauseOutcome::Stopped);
    assert_eq!(state(&q, 0), TaskState::Paused);
    assert_eq!(q.pause(TaskId(0)).unwrap(), PauseOutcome::Unchanged);
    assert_eq!(q.pause(TaskId(2)).unwrap(), PauseOutcome::Dequeued);
    q.resume(TaskId(0)).unwrap();
    assert_eq!(q.pump().unwrap().id, TaskId(0));
    match q.resume(TaskId(0)) {
        Err(e) => assert_eq!(
            e.message(),
            "invalid state for 00000000-0000-0000-0000-000000000000: expected Paused, got Active"
        ),
        Ok(_) => panic!(),
    }
}

#[test]
fn cancelling_twice_is_harmless() {
    let mut q = QueueState::with_max_concurrent(1);
    assert!(put(&mut q, 7, "dir/cancel.bin"));
    let _ = q.pump();
    let c = q.cancel(TaskId(7)).unwrap().unwrap();
    assert!(c.stop);
    assert_eq!(c.path, "dir/cancel.bin");
    assert_eq!(c.sidecar, "dir/cancel.bin.download.bitcode");
    assert_eq!(state(&q, 7), TaskState::Removed);
    assert!(q.is_idle());
    assert!(!q.is_occupied("dir/cancel.bin"));
    assert!(q.cancel(TaskId(7)).unwrap().is_none());
    assert!(matches!(q.pause(TaskId(7)), Err(QueueError::InvalidState { .. })));
}

#[test]
fn waiting_paused_and_finished_tasks_can_be_cancelled() {
    let mut q = QueueState::with_max_concurrent(1);
    for i in 0..4 {
        assert!(put(&mut q, i, &format!("out{}.bin", i)));
    }
    let _ = q.pump();
    q.on_complete(TaskId(0), Some("boom".to_string()));
    assert_eq!(state(&q, 0), TaskState::Failed("boom".to_string()));
    let _ = q.pause(TaskId(1));
    for i in 0..3 {
        let c = q.cancel(TaskId(i)).unwrap().unwrap();
        assert!(!c.stop);
        assert_eq!(state(&q, i), TaskState::Removed);
    }
    assert_eq!(q.queued_len(), 1);
}

#[test]
fn unknown_tasks_are_not_found() {
    let mut q = QueueState::new();
    let text = "task not found: 00000000-0000-0000-0000-000000000009";
    assert_eq!(q.pause(TaskId(9)).unwrap_err().message(), text);
    assert_eq!(q.resume(TaskId(9)).unwrap_err().message(), text);
    assert_eq!(q.cancel(TaskId(9)).unwrap_err().message(), text);
    assert!(q.query(TaskId(9)).is_none());
    assert_eq!(QueueError::Io("disk".to_string()).message(), "io error: disk");
}

#[test]
fn a_paused_task_is_not_completed_by_its_last_work() {
    let mut q = QueueState::new();
    assert!(put(&mut q, 1, "a.bin"));
    let _ = q.pump();
    let _ = q.pause(TaskId(1));
    q.on_complete(TaskId(1), None);
    assert_eq!(state(&q, 1), TaskState::Paused);
    q.on_complete(TaskId(1), Some("aborted".to_string()));
    assert_eq!(state(&q, 1), TaskState::Paused);
    assert!(q.is_occupied("a.bin"));
}

#[test]
fn taken_paths_are_refused() {
    let mut q = QueueState::new();
    assert!(put(&mut q, 1, "a.bin"));
    assert!(!put(&mut q, 2, "a.bin"));
    assert!(!q.try_enqueue(TaskId(3), "u".to_string(), "b.bin".to_string(), 0, true, 1));
    assert!(!put(&mut q, 1, "c.bin"));
    assert!(q.try_enqueue(TaskId(3), "u".to_string(), "b.bin".to_string(), 0, false, 1));
    assert_eq!(q.query(TaskId(3)).unwrap().workers, 1);
    let all = q.snapshot_all();
    assert_eq!(all.len(), 2);
    assert_eq!(all[0].output_path, "a.bin");
}

fn free_path(q: &QueueState, desired: &str, on_disk: &[&str]) -> String {
    let mut search = RenameSearch::new(desired.to_string());
    loop {
        let c = search.candidate();
        let taken = q.is_occupied(&c) || on_disk.contains(&c.as_str());
        if let Some(p) = search.step(taken) {
            return p;
        }
    }
}

#[test]
fn tasks_for_one_path_get_numbered_paths() {
    let mut q = QueueState::new();
    let mut paths = vec![];
    for i in 0..20 {
        let p = free_path(&q, "dir/a.bin", &[]);
        assert!(put(&mut q, i, &p));
        paths.push(p);
    }
    assert_eq!(&paths[..3], &["dir/a.bin", "dir/a(1).bin", "dir/a(2).bin"]);
    paths.sort();
    paths.dedup();
    assert_eq!(paths.len(), 20);
    assert_eq!(free_path(&QueueState::new(), "a.bin", &["a.bin"]), "a(1).bin");
}

#[test]
fn a_search_goes_on_while_paths_are_taken() {
    let mut search = RenameSearch::new("a".to_string());
    for _ in 0..20_000 {
        assert_eq!(search.step(true), None);
    }
    assert_eq!(search.refused, 20_000);
    assert_eq!(search.step(false), Some("a(20000)".to_string()));
}

#[test]
fn a_search_gives_the_least_free_number() {
    let q = QueueState::new();
    let disk = ["a.bin", "a(1).bin", "a(3).bin"];
    assert_eq!(free_path(&q, "a.bin", &disk), "a(2).bin");
    assert_eq!(free_path(&q, "b.bin", &disk), "b.bin");
}

#[test]
fn paths_may_be_compared_without_case() {
    assert_eq!(path_key("Dir/A.BIN", true), "dir/a.bin");
    assert_eq!(path_key("Dir/A.BIN", false), "Dir/A.BIN");
    let mut q = QueueState::new().folding_case();
    assert!(put(&mut q, 1, "A.bin"));
    assert!(q.is_occupied("a.BIN"));
    assert!(!put(&mut q, 2, "a.bin"));
    let _ = q.cancel(TaskId(1)).unwrap();
    assert!(put(&mut q, 2, "a.bin"));
    let mut q = QueueState::new();
    assert!(put(&mut q, 1, "A.bin"));
    assert!(put(&mut q, 2, "a.bin"));
}

#[test]
fn paths_are_taken_apart_as_the_standard_library_does() {
    let paths = [
        "a", "a.bin", "dir/a.bin", "/a.bin", "/", "", ".", "..", "a/..", "a/.", "a/", "a//", "a//b",
        "./a", "../a.tar.gz", ".hidden", "dir/.hidden", ".a.b", "a.", "a..b", "/x/y/", "/x/y/.",
        "x/./y", "...", "a/...", "//", "//a", "数据/文件.bin", "/.", "/..", "a/./", "./.",
    ];
    for p in paths {
        let std_path = Path::new(p);
        let name = std_path.file_name().map(|n| n.to_str().unwrap().to_string());
        assert_eq!(file_name_of(p), name, "{:?}", p);
        let renamed = std_path.with_file_name("new.x");
        assert_eq!(Path::new(&with_file_name(p, "new.x")), renamed, "{:?}", p);
        let extended = std_path.with_extension("e.tmp");
        assert_eq!(Path::new(&with_extension(p, "e.tmp")), extended, "{:?}", p);
    }
}

/// Finds a path for a task as the disk allows, and puts the task in.
fn enqueue(q: &mut QueueState, disk: &[&str], id: u128, desired: &str) -> String {
    let mut search = RenameSearch::new(desired.to_string());
    loop {
        let candidate = search.candidate();
        let taken = q.is_occupied(&candidate) || disk.contains(&candidate.as_str());
        if let Some(path) = search.step(taken) {
            let on_disk = disk.contains(&path.as_str());
            let url = "http://127.0.0.1:1/unreachable".to_string();
            assert!(q.try_enqueue(TaskId(id), url, path.clone(), 4, on_disk, 0));
            return path;
        }
    }
}

#[test]
fn concurrent_enqueue_assigns_unique_paths() {
    let mut q = QueueState::new();
    for i in 0..20 {
        enqueue(&mut q, &[], i, "a.bin");
    }
    let mut paths: Vec<String> = q.snapshot_all().into_iter().map(|t| t.output_path).collect();
    paths.sort();
    paths.dedup();
    assert_eq!(paths.len(), 20);
}

#[test]
fn ac1_concurrency_fifo() {
    let mut q = QueueState::with_max_concurrent(3);
    for i in 0..10 {
        enqueue(&mut q, &[], i, &format!("out{}.bin", i));
    }
    let mut order = Vec::new();
    let mut running = Vec::new();
    loop {
        while let Some(task) = q.pump() {
            order.push(task.id.0);
            running.push(task.id);
        }
        assert!(q.active_count() <= 3);
        if running.is_empty() {
            break;
        }
        assert_eq!(q.active_count(), running.len());
        q.on_complete(running.remove(0), None);
    }
    assert!(q.is_idle());
    assert_eq!(order, (0..10).collect::<Vec<u128>>());
    for i in 0..10 {
        assert_eq!(state(&q, i), TaskState::Completed);
    }
}

#[test]
fn ac2_pause_resume() {
    let mut q = QueueState::with_max_concurrent(3);
    enqueue(&mut q, &[], 1, "pause.bin");
    assert!(q.pump().is_some());
    assert_eq!(q.pause(TaskId(1)).unwrap(), PauseOutcome::Stopped);
    assert_eq!(state(&q, 1), TaskState::Paused);
    q.resume(TaskId(1)).unwrap();
    assert!(q.pump().is_some());
    q.on_complete(TaskId(1), None);
    assert_eq!(state(&q, 1), TaskState::Completed);
}

#[test]
fn ac3_cancel() {
    let mut q = QueueState::with_max_concurrent(3);
    enqueue(&mut q, &[], 1, "cancel.bin");
    assert!(q.pump().is_some());
    let cancelled = q.cancel(TaskId(1)).unwrap().unwrap();
    assert!(cancelled.stop);
    assert_eq!(cancelled.path, "cancel.bin");
    assert_eq!(cancelled.sidecar, "cancel.bin.download.bitcode");
    assert_eq!(state(&q, 1), TaskState::Removed);
    assert!(q.is_idle());
    assert!(q.cancel(TaskId(1)).unwrap().is_none());
}

#[test]
fn ac4_rename_three() {
    let mut q = QueueState::with_max_concurrent(3);
    let paths: Vec<String> = (0..3).map(|i| enqueue(&mut q, &[], i, "a.bin")).collect();
    assert_eq!(paths, vec!["a.bin", "a(1).bin", "a(2).bin"]);
}

#[test]
fn ac4_rename_disk_trigger() {
    let mut q = QueueState::with_max_concurrent(3);
    assert_eq!(enqueue(&mut q, &["a.bin"], 1, "a.bin"), "a(1).bin");
}

#[test]
fn ac5_isolation() {
    let mut q = QueueState::with_max_concurrent(3);
    for (i, name) in ["ok1.bin", "fail.bin", "ok2.bin"].iter().enumerate() {
        enqueue(&mut q, &[], i as u128, name);
        assert!(q.pump().is_some());
    }
    q.on_complete(TaskId(0), None);
    q.on_complete(TaskId(1), Some("500".to_string()));
    q.on_complete(TaskId(2), None);
    assert_eq!(state(&q, 0), TaskState::Completed);
    assert_eq!(state(&q, 1), TaskState::Failed("500".to_string()));
    assert_eq!(state(&q, 2), TaskState::Completed);
}
