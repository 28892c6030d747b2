//! End-to-end tests of the queue, counters, log and worker pool.

use scanpool::counters::CheckResult;
use scanpool::log::LogBuffer;
use scanpool::outcome::Outcome;
use scanpool::pool::{effective_workers, run_pool};
use scanpool::queue::{WorkItem, WorkQueue};

fn classify_by_name(item: &WorkItem) -> Outcome {
    if item.path.ends_with("fail.zip") {
        Outcome::Failed(String::from("x"))
    } else if item.path.ends_with("locked.zip") {
        Outcome::Skipped(String::from("y"))
    } else {
        Outcome::Success
    }
}

fn five_item_queue() -> WorkQueue {
    let mut queue = WorkQueue::new();
    for name in ["a.zip", "b.zip", "c.zip", "fail.zip", "locked.zip"] {
        queue.push(WorkItem::new(String::from(name)));
    }
    queue
}

#[test]
fn test_check_result_default() {
    let result = CheckResult::default();

    assert_eq!(result.total, 0);
    assert_eq!(result.valid, 0);
    assert_eq!(result.skipped, 0);
    assert_eq!(result.corrupted, 0);
}

#[test]
fn test_check_result_counters() {
    let mut result = CheckResult::default();

    result.total = 10;
    result.valid = 7;
    result.corrupted = 2;
    result.skipped = 1;

    assert_eq!(result.total, 10);
    assert_eq!(result.valid, 7);
    assert_eq!(result.corrupted, 2);
    assert_eq!(result.skipped, 1);
    assert_eq!(result.valid + result.corrupted + result.skipped, 10);
}

#[test]
fn test_record_each_variant() {
    let mut c = CheckResult::new();
    c.record(&Outcome::Success);
    c.record(&Outcome::Skipped(String::from("password protected")));
    c.record(&Outcome::Failed(String::from("boom")));
    c.record(&Outcome::Unsupported);
    assert_eq!(c.total, 4);
    assert_eq!(c.valid, 1);
    assert_eq!(c.skipped, 2);
    assert_eq!(c.corrupted, 1);
    assert_eq!(c.valid + c.skipped + c.corrupted, c.total);
}

#[test]
fn test_queue_pop_order() {
    let mut q = WorkQueue::new();
    q.push(WorkItem::new(String::from("first")));
    q.push(WorkItem::new(String::from("second")));
    assert_eq!(q.len(), 2);
    assert_eq!(q.pop().unwrap().path, "second");
    assert_eq!(q.pop().unwrap().path, "first");
    assert!(q.pop().is_none());
    assert!(q.is_empty());
}

#[test]
fn test_run_pool_example_counts() {
    let queue = five_item_queue();
    let schedule: Vec<usize> = vec![0, 1, 2, 3, 0, 1];
    let out = run_pool(queue, 4, &schedule, "", classify_by_name);

    assert_eq!(out.counters.total, 5);
    assert_eq!(out.counters.valid, 3);
    assert_eq!(out.counters.corrupted, 1);
    assert_eq!(out.counters.skipped, 1);
    assert_eq!(out.log.len(), 5);
    assert_eq!(out.processed.len(), 5);
    // Each collected item was classified exactly once, most recent first.
    let mut seen: Vec<&str> = out.processed.iter().map(|it| it.path.as_str()).collect();
    seen.sort();
    assert_eq!(seen, vec!["a.zip", "b.zip", "c.zip", "fail.zip", "locked.zip"]);
    // The failed subset feeds the post-action gate.
    assert_eq!(out.failed.len(), 1);
    assert_eq!(out.failed[0].path, "fail.zip");
}

#[test]
fn test_run_pool_single_worker() {
    let queue = five_item_queue();
    let schedule: Vec<usize> = Vec::new();
    let out = run_pool(queue, 1, &schedule, "", classify_by_name);

    assert_eq!(out.counters.total, 5);
    assert_eq!(out.counters.valid, 3);
    assert_eq!(out.counters.corrupted, 1);
    assert_eq!(out.counters.skipped, 1);
    assert_eq!(out.log.len(), 5);
}

#[test]
fn test_run_pool_schedules_agree() {
    let schedules: Vec<Vec<usize>> = vec![
        vec![],
        vec![0, 0, 0, 0, 0, 0, 0],
        vec![3, 1, 4, 1, 5],
        vec![7, 7, 7],
    ];
    for schedule in schedules {
        let out = run_pool(five_item_queue(), 8, &schedule, "", classify_by_name);
        assert_eq!(out.counters.total, 5);
        assert_eq!(out.counters.valid, 3);
        assert_eq!(out.counters.corrupted, 1);
        assert_eq!(out.counters.skipped, 1);
        assert_eq!(out.log.len(), 5);
    }
}

#[test]
fn test_run_pool_empty_queue() {
    let queue = WorkQueue::new();
    let schedule: Vec<usize> = vec![0, 1];
    let out = run_pool(queue, 2, &schedule, "", classify_by_name);
    assert_eq!(out.counters.total, 0);
    assert_eq!(out.counters.valid + out.counters.skipped + out.counters.corrupted, 0);
    assert_eq!(out.log.len(), 0);
    assert!(out.failed.is_empty());
}

#[test]
fn test_log_line_content() {
    let queue = five_item_queue();
    let schedule: Vec<usize> = Vec::new();
    let out = run_pool(queue, 1, &schedule, "", classify_by_name);
    // One worker pops in reverse push order: locked.zip first.
    assert_eq!(out.log.line_at(0).as_str(), "[PASSWORD PROTECTED] locked.zip\n");
    assert_eq!(out.log.line_at(1).as_str(), "[CORRUPTED] fail.zip - x\n");
    assert_eq!(out.log.line_at(2).as_str(), "[VALID] c.zip\n");
}

#[test]
fn test_log_line_strips_base() {
    let mut queue = WorkQueue::new();
    queue.push(WorkItem::new(String::from("/scan/root/a.zip")));
    let schedule: Vec<usize> = Vec::new();
    let out = run_pool(queue, 1, &schedule, "/scan/root", classify_by_name);
    assert_eq!(out.log.line_at(0).as_str(), "[VALID] a.zip\n");
}

#[test]
fn test_summary_block() {
    let mut counters = CheckResult::new();
    counters.total = 100;
    counters.valid = 80;
    counters.corrupted = 15;
    counters.skipped = 5;

    let mut log = LogBuffer::new();
    log.append_summary(&counters);
    assert_eq!(log.len(), 6);
    assert_eq!(
        log.line_at(0).as_str(),
        "========================================================\n"
    );
    assert_eq!(log.line_at(1).as_str(), "Validation Complete - Summary Statistics:\n");
    assert_eq!(log.line_at(2).as_str(), "   Total files checked: 100\n");
    assert_eq!(log.line_at(3).as_str(), "Intact files: 80\n");
    assert_eq!(log.line_at(4).as_str(), "Corrupted files: 15\n");
    assert_eq!(log.line_at(5).as_str(), "Skipped files (password protected or unsupported): 5\n");
}

#[test]
fn test_summary_block_zero_values() {
    let counters = CheckResult::new();
    let mut log = LogBuffer::new();
    log.append_summary(&counters);
    assert_eq!(log.len(), 6);
    assert_eq!(log.line_at(2).as_str(), "   Total files checked: 0\n");
    assert_eq!(log.line_at(3).as_str(), "Intact files: 0\n");
    assert_eq!(log.line_at(4).as_str(), "Corrupted files: 0\n");
    assert_eq!(log.line_at(5).as_str(), "Skipped files (password protected or unsupported): 0\n");
}

#[test]
fn test_concatenated_log() {
    let mut log = LogBuffer::new();
    log.append(String::from("one\n"));
    log.append(String::from("two\n"));
    assert_eq!(log.concatenated(), "one\ntwo\n");
}

#[test]
fn test_effective_workers_fallback() {
    assert_eq!(effective_workers(None), 1);
    assert_eq!(effective_workers(Some(0)), 1);
    assert_eq!(effective_workers(Some(1)), 1);
    assert_eq!(effective_workers(Some(8)), 8);
}
