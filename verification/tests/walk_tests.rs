use std::cell::Cell;
use std::rc::Rc;

use taskgraph::backoff::BackoffPolicy;
use taskgraph::counter::ActiveCounter;
use taskgraph::job::{GraphJob, Job, JobResult, PushHandle};
use taskgraph::walk::{merge_outputs, walk, walk_checked, walk_strict, ConfigError};

#[derive(Debug, PartialEq)]
struct TestError(String);

// Custom job struct for testing
#[derive(Clone)]
struct TestJob {
    multiplier: i32,
}

impl GraphJob<i32, i32, TestError> for TestJob {
    // the law of the contract is a proof item; its erased form does nothing
    fn pushes_shrink(&self, _item: i32) {}

    fn process(&self, input: i32, _worker: &mut PushHandle<i32>) -> JobResult<i32, TestError> {
        if input < 0 {
            Err(TestError("negative input".to_string()))
        } else if input == 0 {
            Ok(None)
        } else {
            Ok(Some(input * self.multiplier))
        }
    }
}

#[test]
fn test_job_struct() {
    let mut worker = PushHandle::new();
    let job = TestJob { multiplier: 2 };

    // Test successful case
    assert_eq!(job.process(5, &mut worker), Ok(Some(10)));

    // Test None case
    assert_eq!(job.process(0, &mut worker), Ok(None));

    // Test error case
    assert_eq!(
        job.process(-1, &mut worker),
        Err(TestError("negative input".to_string()))
    );
}

#[test]
fn test_job_closure() {
    let mut worker = PushHandle::new();
    let job = |x: i32, _w: &mut PushHandle<i32>| -> JobResult<i32, TestError> {
        if x < 0 {
            Err(TestError("negative input".to_string()))
        } else if x == 0 {
            Ok(None)
        } else {
            Ok(Some(x * 3))
        }
    };

    // Test successful case
    assert_eq!(job(5, &mut worker), Ok(Some(15)));

    // Test None case
    assert_eq!(job(0, &mut worker), Ok(None));

    // Test error case
    assert_eq!(job(-1, &mut worker), Err(TestError("negative input".to_string())));
}

#[test]
fn multiply_numbers() -> Result<(), String> {
    let job = Job::new("multiply_numbers".to_string(), vec![2, 3]);
    let result = job.run(|job: &Job<i32>| -> Result<i32, String> {
        let result = job.1.iter().product::<i32>();
        println!("result: {}", result);
        Ok(result)
    });
    assert_eq!(result.is_ok(), true);
    assert_eq!(result.unwrap(), 6);
    Ok(())
}

/// A job that returns a constant output and discovers nothing.
struct ConstJob;

impl GraphJob<i32, i32, String> for ConstJob {
    fn pushes_shrink(&self, _item: i32) {}

    fn process(&self, _input: i32, _worker: &mut PushHandle<i32>) -> JobResult<i32, String> {
        Ok(Some(1))
    }
}

#[test]
fn test_empty_input() {
    let result: Vec<i32> = walk(vec![], 2, ConstJob);
    assert!(result.is_empty());
}

/// A job that doubles its item and discovers nothing.
struct DoubleJob;

impl GraphJob<i32, i32, String> for DoubleJob {
    fn pushes_shrink(&self, _item: i32) {}

    fn process(&self, x: i32, _worker: &mut PushHandle<i32>) -> JobResult<i32, String> {
        Ok(Some(x * 2))
    }
}

#[test]
fn test_simple_processing() {
    let result: Vec<i32> = walk(vec![1, 2, 3], 2, DoubleJob);
    assert_eq!(result.len(), 3);
    assert!(result.contains(&2));
    assert!(result.contains(&4));
    assert!(result.contains(&6));
}

/// A job that counts its invocations and generates two new tasks for small
/// numbers.
struct GeneratingJob {
    processed: Rc<Cell<usize>>,
}

impl GraphJob<i32, i32, String> for GeneratingJob {
    fn pushes_shrink(&self, _item: i32) {}

    fn process(&self, x: i32, w: &mut PushHandle<i32>) -> JobResult<i32, String> {
        self.processed.set(self.processed.get() + 1);

        // Generate two new tasks for numbers less than 3
        if x < 3 {
            w.push(x * 2);
            w.push(x * 2 + 1);
        }

        Ok(Some(x))
    }
}

#[test]
fn test_task_generation() {
    let processed = Rc::new(Cell::new(0));
    let job = GeneratingJob { processed: Rc::clone(&processed) };

    let result: Vec<i32> = walk(vec![1], 3, job);

    // Should process: 1 -> [2,3] -> [4,5] (no more tasks for 3,4,5)
    assert_eq!(processed.get(), 5);
    assert_eq!(result.len(), 5);
    assert!(result.contains(&1));
    assert!(result.contains(&2));
    assert!(result.contains(&3));
    assert!(result.contains(&4));
    assert!(result.contains(&5));
}

/// A job that keeps only even items.
struct EvenJob;

impl GraphJob<i32, i32, String> for EvenJob {
    fn pushes_shrink(&self, _item: i32) {}

    fn process(&self, x: i32, _worker: &mut PushHandle<i32>) -> JobResult<i32, String> {
        // Only return Some for even numbers
        if x % 2 == 0 {
            Ok(Some(x))
        } else {
            Ok(None)
        }
    }
}

#[test]
fn test_none_results() {
    let result: Vec<i32> = walk(vec![1, 2, 3, 4, 5, 6], 2, EvenJob);
    assert_eq!(result.len(), 3);
    assert!(result.contains(&2));
    assert!(result.contains(&4));
    assert!(result.contains(&6));
}

#[test]
fn worker_count_invariance() {
    // The same deterministic job gives the same output set whatever the
    // worker count.
    let mut results: Vec<Vec<i32>> = Vec::new();
    for workers in [1, 2, 8] {
        let processed = Rc::new(Cell::new(0));
        let job = GeneratingJob { processed };
        let mut out: Vec<i32> = walk(vec![1], workers, job);
        out.sort();
        results.push(out);
    }
    assert_eq!(results[0], vec![1, 2, 3, 4, 5]);
    assert_eq!(results[0], results[1]);
    assert_eq!(results[0], results[2]);
}

#[test]
fn empty_input_never_invokes_job() {
    let processed = Rc::new(Cell::new(0));
    let job = GeneratingJob { processed: Rc::clone(&processed) };
    let result: Vec<i32> = walk(vec![], 4, job);
    assert!(result.is_empty());
    assert_eq!(processed.get(), 0);
}

/// A job whose errors are swallowed: odd items fail, even items double.
struct FailingJob;

impl GraphJob<i32, i32, String> for FailingJob {
    fn pushes_shrink(&self, _item: i32) {}

    fn process(&self, x: i32, _worker: &mut PushHandle<i32>) -> JobResult<i32, String> {
        if x % 2 == 1 {
            Err(format!("odd item {}", x))
        } else {
            Ok(Some(x * 2))
        }
    }
}

#[test]
fn job_errors_are_swallowed() {
    let mut result: Vec<i32> = walk(vec![1, 2, 3, 4], 2, FailingJob);
    result.sort();
    assert_eq!(result, vec![4, 8]);
}

/// A job that discovers a long chain: each item pushes its successor up to
/// a bound.
struct ChainJob;

impl GraphJob<i32, i32, String> for ChainJob {
    fn pushes_shrink(&self, _item: i32) {}

    fn process(&self, x: i32, w: &mut PushHandle<i32>) -> JobResult<i32, String> {
        if x < 100 {
            w.push(x + 1);
        }
        Ok(Some(x))
    }
}

#[test]
fn long_chain_is_fully_processed() {
    let mut result: Vec<i32> = walk(vec![1], 2, ChainJob);
    result.sort();
    let expected: Vec<i32> = (1..=100).collect();
    assert_eq!(result, expected);
}

#[test]
fn strict_mode_surfaces_errors() {
    let (mut outputs, mut errors) = walk_strict(vec![1, 2, 3, 4], 2, FailingJob);
    outputs.sort();
    errors.sort();
    assert_eq!(outputs, vec![4, 8]);
    assert_eq!(errors, vec!["odd item 1".to_string(), "odd item 3".to_string()]);
}

#[test]
fn walk_checked_rejects_zero_workers() {
    let r: Result<Vec<i32>, ConfigError> = walk_checked(vec![1, 2], 0, DoubleJob);
    assert_eq!(r, Err(ConfigError::ZeroWorkers));
}

#[test]
fn walk_checked_accepts_one_worker() {
    let r: Result<Vec<i32>, ConfigError> = walk_checked(vec![3], 1, DoubleJob);
    let mut out = r.unwrap();
    out.sort();
    assert_eq!(out, vec![6]);
}

#[test]
fn active_counter_protocol() {
    let mut counter = ActiveCounter::new();
    assert!(counter.is_zero());
    assert_eq!(counter.current_count(), 0);
    let t1 = counter.take_token();
    let t2 = counter.take_token();
    assert!(!counter.is_zero());
    assert_eq!(counter.current_count(), 2);
    t1.release(&mut counter);
    assert_eq!(counter.current_count(), 1);
    t2.release(&mut counter);
    assert!(counter.is_zero());
}

#[test]
fn backoff_schedule() {
    let mut b = BackoffPolicy::new();
    assert!(!b.is_completed());
    // the step stops rising once past the yield limit
    for _ in 0..10 {
        b.snooze();
        assert!(!b.is_completed());
    }
    b.snooze();
    assert!(b.is_completed());
    b.snooze();
    assert!(b.is_completed());
    b.reset();
    assert!(!b.is_completed());
}

#[test]
fn push_handle_hands_items_back_in_order() {
    let mut h: PushHandle<i32> = PushHandle::new();
    h.push(7);
    h.push(8);
    h.push(9);
    assert_eq!(h.into_items(), vec![7, 8, 9]);
}

#[test]
fn merge_outputs_flattens_in_worker_order() {
    let parts = vec![vec![1, 2], vec![], vec![3], vec![4, 5]];
    assert_eq!(merge_outputs(parts), vec![1, 2, 3, 4, 5]);
}

#[test]
fn job_new_keeps_name_and_args() {
    let job = Job::new("sum".to_string(), vec![1u64, 2, 3]);
    assert_eq!(job.0, "sum");
    assert_eq!(job.1, vec![1u64, 2, 3]);
}
