use docbuilder_queue::{BuildQueue, ChangeEvent, ChangeKind, DocBuilder, QueueEntry, MAX_ATTEMPTS};
use std::cell::Cell;

fn event(name: &str, version: &str, kind: ChangeKind) -> ChangeEvent {
    ChangeEvent::new(name.to_string(), version.to_string(), kind)
}

fn summary(entries: &Vec<QueueEntry>) -> Vec<(u64, String, String, u32)> {
    entries
        .iter()
        .map(|e| (e.id, e.name.clone(), e.version.clone(), e.attempt))
        .collect()
}

fn row(id: u64, name: &str, version: &str, attempt: u32) -> (u64, String, String, u32) {
    (id, name.to_string(), version.to_string(), attempt)
}

#[test]
fn test_get_new_crates() {
    let mut builder = DocBuilder::new();
    let changes = vec![
        event("c", "3.0.0", ChangeKind::Added),
        event("b", "2.0.0", ChangeKind::Added),
        event("a", "1.0.0", ChangeKind::Added),
    ];
    let count = builder.get_new_crates(&changes);
    assert_eq!(count, 3);
}

#[test]
fn test_build_packages_queue() {
    let mut builder = DocBuilder::new();
    builder.get_new_crates(&vec![event("a", "1.0.0", ChangeKind::Added)]);
    let built = builder.build_packages_queue(|_name: &String, _version: &String| true);
    assert_eq!(built, 1);
    assert!(builder.queue.entries().is_empty());
}

#[test]
fn ingestion_reverses_feed_order() {
    let mut builder = DocBuilder::new();
    let changes = vec![
        event("c", "3.0.0", ChangeKind::Added),
        event("b", "2.0.0", ChangeKind::Added),
        event("a", "1.0.0", ChangeKind::Added),
    ];
    builder.get_new_crates(&changes);
    assert_eq!(
        summary(builder.queue.entries()),
        vec![row(1, "a", "1.0.0", 0), row(2, "b", "2.0.0", 0), row(3, "c", "3.0.0", 0)]
    );
}

#[test]
fn ingestion_appends_after_backlog() {
    let mut builder = DocBuilder::new();
    builder.get_new_crates(&vec![event("old", "0.1.0", ChangeKind::Added)]);
    let count = builder.get_new_crates(&vec![
        event("newer", "2.0.0", ChangeKind::Added),
        event("new", "1.0.0", ChangeKind::Added),
    ]);
    assert_eq!(count, 3);
    assert_eq!(
        summary(builder.queue.entries()),
        vec![row(1, "old", "0.1.0", 0), row(2, "new", "1.0.0", 0), row(3, "newer", "2.0.0", 0)]
    );
}

#[test]
fn yanked_events_are_skipped() {
    let mut builder = DocBuilder::new();
    let changes = vec![
        event("x", "1.0.0", ChangeKind::Added),
        event("y", "1.0.0", ChangeKind::Yanked),
        event("z", "1.0.0", ChangeKind::Added),
    ];
    let count = builder.get_new_crates(&changes);
    assert_eq!(count, 2);
    assert_eq!(
        summary(builder.queue.entries()),
        vec![row(1, "z", "1.0.0", 0), row(2, "x", "1.0.0", 0)]
    );
}

#[test]
fn unyanked_events_are_admitted() {
    let mut builder = DocBuilder::new();
    let count = builder.get_new_crates(&vec![event("u", "0.2.0", ChangeKind::Unyanked)]);
    assert_eq!(count, 1);
    assert_eq!(summary(builder.queue.entries()), vec![row(1, "u", "0.2.0", 0)]);
}

#[test]
fn all_yanked_batch_inserts_nothing() {
    let mut builder = DocBuilder::new();
    let count = builder.get_new_crates(&vec![
        event("a", "1.0.0", ChangeKind::Yanked),
        event("b", "1.0.0", ChangeKind::Yanked),
    ]);
    assert_eq!(count, 0);
    assert!(builder.queue.entries().is_empty());
}

#[test]
fn empty_batch_reports_backlog() {
    let mut builder = DocBuilder::new();
    builder.get_new_crates(&vec![
        event("a", "1.0.0", ChangeKind::Added),
        event("b", "1.0.0", ChangeKind::Added),
    ]);
    let count = builder.get_new_crates(&Vec::new());
    assert_eq!(count, 2);
}

#[test]
fn duplicate_versions_give_duplicate_rows() {
    let mut builder = DocBuilder::new();
    builder.get_new_crates(&vec![event("a", "1.0.0", ChangeKind::Added)]);
    builder.get_new_crates(&vec![event("a", "1.0.0", ChangeKind::Added)]);
    assert_eq!(
        summary(builder.queue.entries()),
        vec![row(1, "a", "1.0.0", 0), row(2, "a", "1.0.0", 0)]
    );
}

#[test]
fn failed_builds_increment_attempt_by_one() {
    let mut builder = DocBuilder::new();
    builder.get_new_crates(&vec![event("a", "1.0.0", ChangeKind::Added)]);
    for expected in 1..4u32 {
        let built = builder.build_packages_queue(|_n: &String, _v: &String| false);
        assert_eq!(built, 0);
        assert_eq!(summary(builder.queue.entries()), vec![row(1, "a", "1.0.0", expected)]);
    }
}

#[test]
fn five_failures_stall_entry() {
    let mut builder = DocBuilder::new();
    builder.get_new_crates(&vec![event("a", "1.0.0", ChangeKind::Added)]);
    for _ in 0..5 {
        builder.build_packages_queue(|_n: &String, _v: &String| false);
    }
    assert_eq!(summary(builder.queue.entries()), vec![row(1, "a", "1.0.0", MAX_ATTEMPTS)]);
    assert!(builder.queue.fetch_eligible_ordered().is_empty());
    assert_eq!(builder.queue.count_eligible(), 0);
    let calls = Cell::new(0u32);
    let built = builder.build_packages_queue(|_n: &String, _v: &String| {
        calls.set(calls.get() + 1);
        true
    });
    assert_eq!(built, 0);
    assert_eq!(calls.get(), 0);
    assert_eq!(builder.queue.entries().len(), 1);
}

#[test]
fn success_removes_entry_for_good() {
    let mut builder = DocBuilder::new();
    builder.get_new_crates(&vec![event("a", "1.0.0", ChangeKind::Added)]);
    builder.build_packages_queue(|_n: &String, _v: &String| false);
    builder.build_packages_queue(|_n: &String, _v: &String| false);
    let built = builder.build_packages_queue(|_n: &String, _v: &String| true);
    assert_eq!(built, 1);
    assert!(builder.queue.entries().is_empty());
    assert!(builder.queue.fetch_eligible_ordered().is_empty());
    builder.get_new_crates(&vec![event("b", "1.0.0", ChangeKind::Added)]);
    assert_eq!(summary(builder.queue.entries()), vec![row(2, "b", "1.0.0", 0)]);
}

#[test]
fn drain_returns_number_of_successes() {
    let mut builder = DocBuilder::new();
    builder.get_new_crates(&vec![
        event("d", "1.0.0", ChangeKind::Added),
        event("c", "1.0.0", ChangeKind::Added),
        event("b", "1.0.0", ChangeKind::Added),
        event("a", "1.0.0", ChangeKind::Added),
    ]);
    let built = builder.build_packages_queue(|n: &String, _v: &String| n.as_str() != "b");
    assert_eq!(built, 3);
    assert_eq!(summary(builder.queue.entries()), vec![row(2, "b", "1.0.0", 1)]);
}

#[test]
fn drain_visits_entries_in_id_order() {
    let mut builder = DocBuilder::new();
    builder.get_new_crates(&vec![
        event("c", "1.0.0", ChangeKind::Added),
        event("b", "1.0.0", ChangeKind::Added),
        event("a", "1.0.0", ChangeKind::Added),
    ]);
    let seen = std::cell::RefCell::new(Vec::new());
    builder.build_packages_queue(|n: &String, _v: &String| {
        seen.borrow_mut().push(n.clone());
        false
    });
    assert_eq!(seen.into_inner(), vec!["a".to_string(), "b".to_string(), "c".to_string()]);
}

#[test]
fn scenario_stalls_foo_and_removes_bar() {
    let mut builder = DocBuilder::new();
    builder.get_new_crates(&vec![
        event("bar", "2.0", ChangeKind::Added),
        event("foo", "1.0", ChangeKind::Added),
    ]);
    for _ in 0..4 {
        builder.queue.resolve(1, false);
    }
    assert_eq!(
        summary(builder.queue.entries()),
        vec![row(1, "foo", "1.0", 4), row(2, "bar", "2.0", 0)]
    );
    let built = builder.build_packages_queue(|n: &String, v: &String| {
        !(n.as_str() == "foo" && v.as_str() == "1.0")
    });
    assert_eq!(built, 1);
    assert_eq!(summary(builder.queue.entries()), vec![row(1, "foo", "1.0", 5)]);
    assert!(builder.queue.fetch_eligible_ordered().is_empty());
}

#[test]
fn store_operations_on_missing_ids() {
    let mut queue = BuildQueue::new();
    assert_eq!(queue.insert("a".to_string(), "1.0.0".to_string()), Some(1));
    assert_eq!(queue.insert("b".to_string(), "1.0.0".to_string()), Some(2));
    assert!(!queue.delete_entry(7));
    assert!(!queue.increment_attempt(7));
    assert!(queue.increment_attempt(2));
    assert!(queue.delete_entry(1));
    assert!(!queue.delete_entry(1));
    assert_eq!(summary(queue.entries()), vec![row(2, "b", "1.0.0", 1)]);
}

#[test]
fn fetch_eligible_skips_stalled_rows() {
    let mut queue = BuildQueue::new();
    queue.insert("a".to_string(), "1.0.0".to_string());
    queue.insert("b".to_string(), "1.0.0".to_string());
    queue.insert("c".to_string(), "1.0.0".to_string());
    for _ in 0..MAX_ATTEMPTS {
        queue.increment_attempt(2);
    }
    assert_eq!(
        summary(&queue.fetch_eligible_ordered()),
        vec![row(1, "a", "1.0.0", 0), row(3, "c", "1.0.0", 0)]
    );
    assert_eq!(queue.count_eligible(), 2);
}

#[test]
fn duplicate_copies_every_field() {
    let e = QueueEntry { id: 9, name: "n".to_string(), version: "v".to_string(), attempt: 3 };
    let d = e.duplicate();
    assert_eq!((d.id, d.name, d.version, d.attempt), (9, "n".to_string(), "v".to_string(), 3));
}
