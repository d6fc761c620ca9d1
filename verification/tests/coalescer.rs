use std::collections::HashMap;
use std::sync::{Arc, Mutex};

use conc::dataloader::{DataLoader, DataLoaderFuture, DataLoaderHandler, DataResult, ID};

/// A test capability: answers each pending key with ten times its value,
/// counting into a shared log how often it is invoked and which keys it
/// saw.
struct TenTimes {
    log: Arc<Mutex<Vec<Vec<ID>>>>,
}

impl TenTimes {
    fn new() -> (TenTimes, Arc<Mutex<Vec<Vec<ID>>>>) {
        let log = Arc::new(Mutex::new(Vec::new()));
        (TenTimes { log: log.clone() }, log)
    }
}

impl DataLoaderHandler<i32, ()> for TenTimes {
    fn batch_execute(&mut self, _ctx: &(), results: &mut HashMap<ID, DataResult<i32>>) {
        let mut keys: Vec<ID> = results.keys().copied().collect();
        keys.sort();
        self.log.lock().unwrap().push(keys.clone());
        for k in keys {
            results.insert(k, DataResult::Ready(k * 10));
        }
    }
}

/// A capability that answers nothing, leaving every key pending.
struct Silent;

impl DataLoaderHandler<i32, ()> for Silent {
    fn batch_execute(&mut self, _ctx: &(), _results: &mut HashMap<ID, DataResult<i32>>) {}
}

/// Keys 5, 7, 5, 9 raised inside one batch window with a threshold of
/// three: the batch closes on the third distinct key, the capability runs
/// exactly once and sees exactly the keys 5, 7 and 9, and both callers for
/// key 5 observe the identical resolved value.
#[test]
fn dedup_batch_of_three() {
    let (handler, log) = TenTimes::new();
    let mut loader: DataLoader<TenTimes, (), i32, u8> = DataLoader::new(handler, 3);
    let f5a: DataLoaderFuture<i32, u8> = DataLoaderFuture::new(5);
    let f7: DataLoaderFuture<i32, u8> = DataLoaderFuture::new(7);
    let f5b: DataLoaderFuture<i32, u8> = DataLoaderFuture::new(5);
    let f9: DataLoaderFuture<i32, u8> = DataLoaderFuture::new(9);

    let first = loader.register(f5a.clone());
    assert!(first.arm_timer);
    assert!(!first.trigger);
    let second = loader.register(f7.clone());
    assert!(!second.arm_timer);
    assert!(!second.trigger);
    let duplicate = loader.register(f5b.clone());
    assert!(!duplicate.arm_timer);
    assert!(!duplicate.trigger);
    let third = loader.register(f9.clone());
    assert!(!third.arm_timer);
    assert!(third.trigger);

    let wakers = loader.batch_execute(&());
    assert!(wakers.is_empty());

    let a = f5a.poll(0).unwrap().unwrap();
    let b = f5b.poll(0).unwrap().unwrap();
    assert_eq!(a, 50);
    assert_eq!(b, 50);
    assert_eq!(f7.poll(0).unwrap().unwrap(), 70);
    assert_eq!(f9.poll(0).unwrap().unwrap(), 90);
    let seen = log.lock().unwrap();
    assert_eq!(seen.len(), 1);
    assert_eq!(seen[0], vec![5, 7, 9]);
}

/// One batch means one invocation of the capability, with all distinct
/// pending keys at once.
#[test]
fn one_fetch_per_batch() {
    let (handler, log) = TenTimes::new();
    let mut loader: DataLoader<TenTimes, (), i32, u8> = DataLoader::new(handler, 3);
    loader.register(DataLoaderFuture::new(5));
    loader.register(DataLoaderFuture::new(7));
    loader.register(DataLoaderFuture::new(5));
    loader.register(DataLoaderFuture::new(9));
    loader.batch_execute(&());
    // A second batch with one key runs the capability once more.
    loader.register(DataLoaderFuture::new(1));
    loader.batch_execute(&());
    let seen = log.lock().unwrap();
    assert_eq!(seen.len(), 2);
    assert_eq!(seen[0], vec![5, 7, 9]);
    assert_eq!(seen[1], vec![1]);
}

/// Fewer keys than the threshold leave the batch open; when the embedding
/// runtime decides the window has timed out and closes the batch, the
/// capability sees exactly the keys raised so far.
#[test]
fn timeout_closes_partial_batch() {
    let (handler, log) = TenTimes::new();
    let mut loader: DataLoader<TenTimes, (), i32, u8> = DataLoader::new(handler, 3);
    let f1 = DataLoaderFuture::new(1);
    let f2 = DataLoaderFuture::new(2);
    let first = loader.register(f1.clone());
    assert!(first.arm_timer);
    assert!(!first.trigger);
    let second = loader.register(f2.clone());
    assert!(!second.arm_timer);
    assert!(!second.trigger);
    loader.batch_execute(&());
    assert_eq!(f1.poll(0).unwrap().unwrap(), 10);
    assert_eq!(f2.poll(0).unwrap().unwrap(), 20);
    let seen = log.lock().unwrap();
    assert_eq!(seen.len(), 1);
    assert_eq!(seen[0], vec![1, 2]);
}

/// A capability that leaves keys unresolved fails the whole batch: every
/// subscriber observes an error, not a hang.
#[test]
fn unresolved_keys_fail_the_batch() {
    let mut loader: DataLoader<Silent, (), i32, u8> = DataLoader::new(Silent, 2);
    let f1 = DataLoaderFuture::new(1);
    let f2 = DataLoaderFuture::new(2);
    loader.register(f1.clone());
    loader.register(f2.clone());
    loader.batch_execute(&());
    assert_eq!(f1.poll(0), Some(Err("Internal Error".to_string())));
    assert_eq!(f2.poll(0), Some(Err("Internal Error".to_string())));
}

/// A resolution future hands its terminal state out exactly once; while
/// pending it parks the caller's hook, which fulfilling hands back.
#[test]
fn future_poll_and_fulfill() {
    let fut: DataLoaderFuture<i32, u8> = DataLoaderFuture::new(4);
    assert_eq!(fut.id(), 4);
    assert!(fut.poll(7).is_none());
    let hook = fut.fulfill(DataResult::Ready(44));
    assert_eq!(hook, Some(7));
    assert_eq!(fut.poll(8), Some(Ok(44)));
    // The terminal state was taken out; the future reads as pending again.
    assert!(fut.poll(9).is_none());
}

/// An application-level error is handed through; an internal failure is
/// reported under the fixed message.
#[test]
fn future_error_states() {
    let fut: DataLoaderFuture<i32, u8> = DataLoaderFuture::new(1);
    fut.fulfill(DataResult::Error("missing".to_string()));
    assert_eq!(fut.poll(0), Some(Err("missing".to_string())));

    let fut2: DataLoaderFuture<i32, u8> = DataLoaderFuture::new(2);
    fut2.fulfill(DataResult::Internal("socket burst".to_string()));
    assert_eq!(fut2.poll(0), Some(Err("Internal Error".to_string())));
}

/// `take` moves the state out and leaves `Pending` behind.
#[test]
fn data_result_take() {
    let mut r: DataResult<i32> = DataResult::Ready(3);
    let taken = r.take();
    assert!(matches!(taken, DataResult::Ready(3)));
    assert!(matches!(r, DataResult::Pending));
    assert!(r.is_pending());
}
