use dataloader::batch_fn::BatchOutcome;
use dataloader::cached;
use dataloader::cached::Item;
use dataloader::error::{clone_result, expect_loaded, ConfigError, LoadError};
use dataloader::keys::position;
use dataloader::batch_fn::DEFAULT_MAX_BATCH_SIZE;
use dataloader::non_cached::{gather, resolve, State};
use dataloader::request::{Deferral, Poll, Stage};
use dataloader::BatchFn;
use std::collections::HashMap;

/// Multiplies each key by ten, and keeps the keys of every call.
struct Recorder {
    calls: Vec<Vec<u32>>,
}

impl Recorder {
    fn new() -> Recorder {
        Recorder { calls: Vec::new() }
    }
}

impl BatchFn<u32, u32> for Recorder {
    type Error = String;

    fn load(&mut self, keys: &[u32]) -> BatchOutcome<u32, u32, String> {
        self.calls.push(keys.to_vec());
        BatchOutcome::Positional(keys.iter().map(|k| k * 10).collect())
    }
}

/// Fails for a batch that holds the key 13, and answers by key otherwise.
struct Unlucky {
    calls: usize,
}

impl BatchFn<u32, u32> for Unlucky {
    type Error = String;

    fn load(&mut self, keys: &[u32]) -> BatchOutcome<u32, u32, String> {
        self.calls += 1;
        if keys.contains(&13) {
            BatchOutcome::Failed(String::from("unlucky"))
        } else {
            BatchOutcome::Keyed(keys.iter().map(|k| (*k, k + 1)).collect())
        }
    }
}

/// Answers by position and leaves the last value out.
struct OneShort;

impl BatchFn<u32, u32> for OneShort {
    type Error = String;

    fn load(&mut self, keys: &[u32]) -> BatchOutcome<u32, u32, String> {
        BatchOutcome::Positional(keys.iter().skip(1).map(|k| k * 10).collect())
    }
}

fn scheduler(max_batch_size: usize) -> State<u32, u32, String> {
    State::new().with_max_batch_size(max_batch_size).unwrap()
}

fn overlay(max_batch_size: usize) -> cached::State<u32, u32, String> {
    cached::State::new().with_max_batch_size(max_batch_size).unwrap()
}

fn ready(answer: Poll<u32, String>) -> Result<u32, LoadError<String>> {
    match answer {
        Poll::Ready(result) => result,
        Poll::Dispatch(_) => panic!("a batch was dispatched"),
        Poll::Wait => panic!("told to wait"),
        Poll::Gone => panic!("gone"),
    }
}

#[test]
fn two_lookups_fill_one_batch() {
    let mut state = scheduler(2);
    let mut f = Recorder::new();

    let (mut h1, b1) = state.load(1);
    assert_eq!(None, b1);
    let (mut h2, b2) = state.load(2);
    let batch = b2.expect("the second lookup fills the batch");
    assert_eq!(Some(&vec![1, 2]), state.batch_keys(batch));
    assert!(state.run_batch(batch, &mut f));

    assert_eq!(Ok(10), ready(state.poll(&mut h1)));
    assert_eq!(Ok(20), ready(state.poll(&mut h2)));
    assert_eq!(vec![vec![1, 2]], f.calls);
}

#[test]
fn four_lookups_make_two_batches() {
    let mut state = scheduler(2);
    let mut f = Recorder::new();

    let mut handles = Vec::new();
    for key in [1, 2, 3, 4] {
        let (handle, batch) = state.load(key);
        if let Some(batch) = batch {
            assert!(state.run_batch(batch, &mut f));
        }
        handles.push(handle);
    }
    assert_eq!(vec![vec![1, 2], vec![3, 4]], f.calls);
    let results: Vec<_> = handles.iter_mut().map(|h| ready(state.poll(h))).collect();
    assert_eq!(vec![Ok(10), Ok(20), Ok(30), Ok(40)], results);
    assert_eq!(0, state.queue_len());
    assert_eq!(0, state.batch_count());
}

#[test]
fn results_do_not_depend_on_the_batch() {
    // the same keys in another order fall into other batches
    let mut state = scheduler(2);
    let mut f = Recorder::new();
    let (handles, batches) = state.load_many(vec![4, 1, 3, 2]);
    assert_eq!(2, batches.len());
    for batch in batches {
        assert!(state.run_batch(batch, &mut f));
    }
    assert_eq!(vec![vec![4, 1], vec![3, 2]], f.calls);
    let mut handles = handles;
    let results: Vec<_> = handles.iter_mut().map(|h| ready(state.poll(h))).collect();
    assert_eq!(vec![Ok(40), Ok(10), Ok(30), Ok(20)], results);
}

#[test]
fn overlay_shares_one_request_per_key() {
    let mut state = overlay(2);
    let mut f = Recorder::new();

    assert!(matches!(state.load(7), Poll::Wait));
    // the second caller joins the request of the first
    assert!(matches!(state.load(7), Poll::Wait));

    let batch = match state.poll(&7) {
        Poll::Dispatch(batch) => batch,
        _ => panic!("the only request dispatches once it was advanced"),
    };
    assert_eq!(Some(&vec![7]), state.batch_keys(batch));
    assert!(state.run_batch(batch, &mut f));

    assert_eq!(Ok(70), ready(state.poll(&7)));
    assert_eq!(Ok(70), ready(state.poll(&7)));
    assert_eq!(Ok(70), ready(state.load(7)));
    assert_eq!(vec![vec![7]], f.calls);
}

#[test]
fn remove_makes_the_next_load_fetch_again() {
    let mut state = overlay(2);
    let mut f = Recorder::new();

    assert!(matches!(state.load(7), Poll::Wait));
    state.drain(&mut f);
    assert_eq!(Ok(70), ready(state.load(7)));
    assert_eq!(1, f.calls.len());

    assert_eq!(Some(Item::Loaded(Ok(70))), state.remove(&7));
    assert_eq!(None, state.remove(&7));
    assert!(matches!(state.load(7), Poll::Wait));
    state.drain(&mut f);
    assert_eq!(Ok(70), ready(state.load(7)));
    assert_eq!(2, f.calls.len());
}

#[test]
fn primed_value_is_served_without_a_batch() {
    let mut state = overlay(2);
    let mut f = Recorder::new();

    state.prime(7, 99);
    assert_eq!(Ok(99), ready(state.load(7)));
    assert_eq!(Ok(99), ready(state.poll(&7)));
    state.drain(&mut f);
    assert!(f.calls.is_empty());

    // a key that has a result is not primed over
    assert!(matches!(state.load(8), Poll::Wait));
    state.drain(&mut f);
    state.prime(8, 1);
    assert_eq!(Ok(80), ready(state.load(8)));
    state.prime(7, 1);
    assert_eq!(Ok(99), ready(state.load(7)));
    assert_eq!(vec![vec![8]], f.calls);
}

#[test]
fn priming_does_not_touch_a_key_that_is_loading() {
    let mut state = overlay(2);
    let mut f = Recorder::new();
    assert!(matches!(state.load(7), Poll::Wait));
    state.prime(7, 1);
    state.drain(&mut f);
    assert_eq!(Ok(70), ready(state.load(7)));
}

#[test]
fn prime_many_keeps_the_first_offer() {
    let mut state = overlay(2);
    state.prime_many(vec![(1, 11), (2, 22), (1, 33)]);
    assert_eq!(Ok(11), ready(state.load(1)));
    assert_eq!(Ok(22), ready(state.load(2)));
}

#[test]
fn failure_reaches_the_whole_batch_and_no_other() {
    let mut state = scheduler(2);
    let mut f = Unlucky { calls: 0 };

    let (mut h1, _) = state.load(13);
    let (mut h2, batch) = state.load(14);
    assert!(state.run_batch(batch.unwrap(), &mut f));
    let failure = LoadError::BatchFunctionFailed(String::from("unlucky"));
    assert_eq!(Err(failure.clone()), ready(state.poll(&mut h1)));
    assert_eq!(Err(failure), ready(state.poll(&mut h2)));

    // an independent batch for other keys still succeeds
    let (mut h3, _) = state.load(1);
    let (mut h4, batch) = state.load(2);
    assert!(state.run_batch(batch.unwrap(), &mut f));
    assert_eq!(Ok(2), ready(state.poll(&mut h3)));
    assert_eq!(Ok(3), ready(state.poll(&mut h4)));
    assert_eq!(2, f.calls);
}

#[test]
fn failure_of_one_batch_leaves_another_in_flight_alone() {
    let mut state = scheduler(1);
    let mut f = Unlucky { calls: 0 };
    let (mut bad, bad_batch) = state.load(13);
    let (mut good, good_batch) = state.load(1);
    assert_eq!(2, state.batch_count());
    assert!(state.run_batch(bad_batch.unwrap(), &mut f));
    assert_eq!(1, state.batch_count());
    assert!(matches!(state.poll(&mut good), Poll::Wait));
    assert!(state.run_batch(good_batch.unwrap(), &mut f));
    assert_eq!(Ok(2), ready(state.poll(&mut good)));
    assert!(ready(state.poll(&mut bad)).is_err());
}

#[test]
fn short_positional_answer_is_a_size_mismatch() {
    let mut state = scheduler(3);
    let (handles, batches) = state.load_many(vec![1, 2, 3]);
    assert_eq!(1, batches.len());
    assert!(state.run_batch(batches[0], &mut OneShort));
    let mut handles = handles;
    for handle in handles.iter_mut() {
        assert_eq!(
            Err(LoadError::SizeMismatch { key_count: 3, value_count: 2 }),
            ready(state.poll(handle))
        );
    }
}

#[test]
fn size_mismatch_counts_keys_without_repetition() {
    let mut state = scheduler(3);
    let (mut handles, batches) = state.load_many(vec![5, 5, 6]);
    assert_eq!(Some(&vec![5, 6]), state.batch_keys(batches[0]));
    state.complete(batches[0], BatchOutcome::Positional(vec![1, 2, 3]));
    for handle in handles.iter_mut() {
        assert_eq!(
            Err(LoadError::SizeMismatch { key_count: 2, value_count: 3 }),
            ready(state.poll(handle))
        );
    }
}

#[test]
fn missing_key_fails_only_its_own_request() {
    let mut state = scheduler(2);
    let (mut h1, _) = state.load(1);
    let (mut h2, batch) = state.load(2);
    let mut found = HashMap::new();
    found.insert(1, 100);
    state.complete(batch.unwrap(), BatchOutcome::Keyed(found));
    assert_eq!(Ok(100), ready(state.poll(&mut h1)));
    assert_eq!(Err(LoadError::KeyNotFoundInResult), ready(state.poll(&mut h2)));
}

#[test]
fn cancelled_request_is_not_asked_for() {
    let mut state = scheduler(3);
    let mut f = Recorder::new();
    let (h1, _) = state.load(1);
    let (mut h2, _) = state.load(2);
    state.cancel(h1);
    assert_eq!(1, state.queue_len());
    let batch = state.dispatch().unwrap();
    assert_eq!(Some(&vec![2]), state.batch_keys(batch));
    assert!(state.run_batch(batch, &mut f));
    assert_eq!(Ok(20), ready(state.poll(&mut h2)));
    assert_eq!(vec![vec![2]], f.calls);
}

#[test]
fn cancelled_request_leaves_the_key_of_another() {
    let mut state = scheduler(3);
    let (h1, _) = state.load(1);
    let (_h2, _) = state.load(1);
    state.cancel(h1);
    let batch = state.dispatch().unwrap();
    assert_eq!(Some(&vec![1]), state.batch_keys(batch));
}

#[test]
fn batch_whose_handles_are_all_given_up_leaves_nothing() {
    let mut state = scheduler(2);
    let (h1, _) = state.load(1);
    let (h2, batch) = state.load(2);
    let batch = batch.unwrap();
    assert_eq!(1, state.batch_count());
    state.cancel(h1);
    // one member still waits
    assert_eq!(1, state.batch_count());
    state.cancel(h2);
    assert_eq!(0, state.batch_count());
    assert_eq!(None, state.batch_keys(batch));
    // the result arrives all the same, and is dropped
    state.complete(batch, BatchOutcome::Positional(vec![10, 20]));
    assert_eq!(0, state.batch_count());
    assert_eq!(0, state.queue_len());
    assert!(matches!(state.poll_request(1), Poll::Gone));
    assert!(matches!(state.poll_request(2), Poll::Gone));
}

#[test]
fn abandoned_member_gets_no_result() {
    let mut state = scheduler(2);
    let (h1, _) = state.load(1);
    let (mut h2, batch) = state.load(2);
    let gone = h1.id();
    state.cancel(h1);
    state.complete(batch.unwrap(), BatchOutcome::Positional(vec![10, 20]));
    assert!(matches!(state.poll_request(gone), Poll::Gone));
    assert_eq!(Ok(20), ready(state.poll(&mut h2)));
}

#[test]
fn result_that_is_not_picked_up_can_be_dropped() {
    let mut state = scheduler(1);
    let (h1, batch) = state.load(1);
    let id = h1.id();
    state.complete(batch.unwrap(), BatchOutcome::Positional(vec![10]));
    state.cancel(h1);
    assert!(matches!(state.poll_request(id), Poll::Gone));
}

#[test]
fn zero_batch_size_is_refused() {
    let state: State<u32, u32, String> = State::new();
    assert_eq!(DEFAULT_MAX_BATCH_SIZE, state.max_batch_size());
    assert_eq!(200, state.max_batch_size());
    assert_eq!(Deferral::PollCount, state.deferral());
    assert_eq!(Some(ConfigError::ZeroBatchSize), state.with_max_batch_size(0).err());

    let state: cached::State<u32, u32, String> = cached::State::new();
    assert_eq!(200, state.max_batch_size());
    assert_eq!(Some(ConfigError::ZeroBatchSize), state.with_max_batch_size(0).err());

    let state: State<u32, u32, String> = State::new().with_max_batch_size(1).unwrap();
    assert_eq!(1, state.max_batch_size());
}

/// Declares the batch size it was made with.
struct Sized {
    max_batch_size: usize,
}

impl BatchFn<u32, u32> for Sized {
    type Error = String;

    fn load(&mut self, keys: &[u32]) -> BatchOutcome<u32, u32, String> {
        BatchOutcome::Positional(keys.to_vec())
    }

    fn max_batch_size(&self) -> usize {
        self.max_batch_size
    }
}

#[test]
fn scheduler_takes_the_batch_size_of_its_batch_function() {
    let state: State<u32, u32, String> = State::for_batch_fn(&Sized { max_batch_size: 3 }).unwrap();
    assert_eq!(3, state.max_batch_size());
    let state: State<u32, u32, String> = State::for_batch_fn(&Recorder::new()).unwrap();
    assert_eq!(200, state.max_batch_size());
    let refused: Result<State<u32, u32, String>, ConfigError> =
        State::for_batch_fn(&Sized { max_batch_size: 0 });
    assert_eq!(Some(ConfigError::ZeroBatchSize), refused.err());
}

#[test]
fn ids_count_up_from_one() {
    let mut state = scheduler(10);
    assert_eq!(usize::MAX, state.spare_ids());
    let (h1, _) = state.load(5);
    let (h2, _) = state.load(5);
    assert_eq!(1, h1.id());
    assert_eq!(2, h2.id());
    assert_eq!(3, state.next_request_id());
    let (h4, _) = state.load(5);
    assert_eq!(4, h4.id());
    assert_eq!(usize::MAX - 4, state.spare_ids());
}

#[test]
fn handle_goes_through_its_stages() {
    let mut state = scheduler(10);
    let mut f = Recorder::new();
    let (mut h1, _) = state.load(1);
    let (mut h2, _) = state.load(2);
    assert_eq!(Stage::Created, h1.stage());
    // the other handle has not been advanced yet
    assert!(matches!(state.poll(&mut h1), Poll::Wait));
    assert_eq!(Stage::Admitted, h1.stage());
    assert_eq!(Stage::Created, h2.stage());
    let batch = match state.poll(&mut h2) {
        Poll::Dispatch(batch) => batch,
        _ => panic!("every handle was advanced"),
    };
    assert_eq!(Stage::Admitted, h2.stage());
    assert!(matches!(state.poll(&mut h1), Poll::Wait));
    assert!(state.run_batch(batch, &mut f));
    assert_eq!(Ok(10), ready(state.poll(&mut h1)));
    assert_eq!(Stage::Finished, h1.stage());
    assert_eq!(Stage::Admitted, h2.stage());
    // a finished handle has nothing left in the scheduler
    assert!(matches!(state.poll(&mut h1), Poll::Gone));
    assert_eq!(Stage::Finished, h1.stage());
    assert_eq!(Ok(20), ready(state.poll(&mut h2)));
    assert_eq!(vec![vec![1, 2]], f.calls);
}

#[test]
fn yield_count_waits_that_often() {
    let mut state = scheduler(10).with_yield_count(2);
    assert_eq!(Deferral::YieldCount(2), state.deferral());
    let (mut h1, _) = state.load(1);
    let (_h2, _) = state.load(2);
    assert!(matches!(state.poll(&mut h1), Poll::Wait));
    assert!(matches!(state.poll(&mut h1), Poll::Wait));
    let batch = match state.poll(&mut h1) {
        Poll::Dispatch(batch) => batch,
        _ => panic!("the handle has waited twice"),
    };
    // whatever is queued goes along, advanced or not
    assert_eq!(Some(&vec![1, 2]), state.batch_keys(batch));
}

#[test]
fn yield_count_of_zero_dispatches_at_once() {
    let mut state = scheduler(10).with_yield_count(0);
    let (mut h1, _) = state.load(1);
    assert!(matches!(state.poll(&mut h1), Poll::Dispatch(_)));
}

#[test]
fn late_request_joins_the_window() {
    // a request that comes after the first was advanced holds the batch back
    let mut state = scheduler(10);
    let (mut h1, _) = state.load(1);
    let (mut h2, _) = state.load(2);
    assert!(matches!(state.poll(&mut h1), Poll::Wait));
    let (mut h3, _) = state.load(3);
    assert!(matches!(state.poll(&mut h2), Poll::Wait));
    let batch = match state.poll(&mut h3) {
        Poll::Dispatch(batch) => batch,
        _ => panic!("every handle was advanced"),
    };
    assert_eq!(Some(&vec![1, 2, 3]), state.batch_keys(batch));
}

#[test]
fn batch_asks_for_each_key_once() {
    let mut state = scheduler(4);
    let mut f = Recorder::new();
    let (mut handles, batches) = state.load_many(vec![3, 1, 3, 1]);
    assert_eq!(1, batches.len());
    assert!(state.run_batch(batches[0], &mut f));
    assert_eq!(vec![vec![3, 1]], f.calls);
    let results: Vec<_> = handles.iter_mut().map(|h| ready(state.poll(h))).collect();
    assert_eq!(vec![Ok(30), Ok(10), Ok(30), Ok(10)], results);
}

#[test]
fn batch_takes_the_oldest_requests() {
    let mut state = scheduler(10);
    for key in [1, 2, 3, 4, 5] {
        state.load(key);
    }
    let mut state = state.with_max_batch_size(2).unwrap();
    let first = state.dispatch().unwrap();
    assert_eq!(Some(&vec![1, 2]), state.batch_keys(first));
    assert_eq!(3, state.queue_len());
    let second = state.dispatch().unwrap();
    assert_eq!(Some(&vec![3, 4]), state.batch_keys(second));
    let third = state.dispatch().unwrap();
    assert_eq!(Some(&vec![5]), state.batch_keys(third));
    assert_eq!(None, state.dispatch());
    assert_eq!(first, state.oldest_batch());
    assert_eq!(3, state.batch_count());
}

#[test]
fn drain_answers_every_request() {
    let mut state = scheduler(2);
    let mut f = Recorder::new();
    let (mut handles, _) = state.load_many(vec![1, 2, 3, 4, 5]);
    state.drain(&mut f);
    assert_eq!(vec![vec![1, 2], vec![3, 4], vec![5]], f.calls);
    assert_eq!(0, state.queue_len());
    assert_eq!(0, state.batch_count());
    let results: Vec<_> = handles.iter_mut().map(|h| ready(state.poll(h))).collect();
    assert_eq!(vec![Ok(10), Ok(20), Ok(30), Ok(40), Ok(50)], results);
}

#[test]
fn run_batch_of_an_unknown_batch_calls_nothing() {
    let mut state = scheduler(2);
    let mut f = Recorder::new();
    state.load(1);
    assert!(!state.run_batch(77, &mut f));
    assert!(f.calls.is_empty());
    assert_eq!(1, state.queue_len());
}

#[test]
fn retire_hands_the_batch_over() {
    let mut state = scheduler(2);
    state.load(8);
    let (_, batch) = state.load(9);
    let (members, keys) = state.retire(batch.unwrap()).unwrap();
    assert_eq!(vec![8, 9], keys);
    assert_eq!(vec![1, 2], members.iter().map(|m| m.id).collect::<Vec<_>>());
    assert_eq!(vec![0, 1], members.iter().map(|m| m.slot).collect::<Vec<_>>());
    assert!(members.iter().all(|m| !m.abandoned));
    assert!(state.retire(batch.unwrap()).is_none());
}

#[test]
fn reset_forgets_every_request() {
    let mut state = scheduler(2);
    let (mut h1, _) = state.load(1);
    let (mut h2, _) = state.load(2);
    let (mut h3, _) = state.load(3);
    state.reset();
    assert_eq!(0, state.queue_len());
    assert_eq!(0, state.batch_count());
    assert!(matches!(state.poll(&mut h1), Poll::Gone));
    assert!(matches!(state.poll(&mut h2), Poll::Gone));
    assert!(matches!(state.poll(&mut h3), Poll::Gone));
    // ids are not given out again
    let (h4, _) = state.load(4);
    assert_eq!(4, h4.id());
}

#[test]
fn pending_key_names_what_a_request_asks_for() {
    let mut state = scheduler(2);
    let (h1, _) = state.load(11);
    assert_eq!(Some(&11), state.pending_key(h1.id()));
    let (h2, batch) = state.load(12);
    assert_eq!(Some(&11), state.pending_key(h1.id()));
    assert_eq!(Some(&12), state.pending_key(h2.id()));
    assert_eq!(None, state.pending_key(3));
    state.cancel(h1);
    assert_eq!(None, state.pending_key(1));
    state.complete(batch.unwrap(), BatchOutcome::Failed(String::from("no")));
    assert_eq!(None, state.pending_key(h2.id()));
}

#[test]
fn gather_gives_a_map_or_the_first_failure() {
    let empty: Vec<(u32, Result<u32, LoadError<String>>)> = Vec::new();
    assert_eq!(Ok(HashMap::new()), gather(empty));

    let all = gather::<u32, u32, String>(vec![(1, Ok(10)), (2, Ok(20)), (1, Ok(30))]).unwrap();
    assert_eq!(2, all.len());
    assert_eq!(Some(&30), all.get(&1));
    assert_eq!(Some(&20), all.get(&2));

    let failed = gather::<u32, u32, String>(vec![
        (1, Ok(10)),
        (2, Err(LoadError::KeyNotFoundInResult)),
        (3, Err(LoadError::SizeMismatch { key_count: 1, value_count: 0 })),
    ]);
    assert_eq!(Err(LoadError::KeyNotFoundInResult), failed);
}

#[test]
fn resolve_gives_what_a_member_is_owed() {
    let keys = vec![4u32, 5];
    let failed: BatchOutcome<u32, u32, String> = BatchOutcome::Failed(String::from("down"));
    assert_eq!(
        Err(LoadError::BatchFunctionFailed(String::from("down"))),
        resolve(&failed, &keys, 1)
    );
    let by_place: BatchOutcome<u32, u32, String> = BatchOutcome::Positional(vec![40, 50]);
    assert_eq!(Ok(50), resolve(&by_place, &keys, 1));
    assert_eq!(Ok(40), resolve(&by_place, &keys, 0));
    let short: BatchOutcome<u32, u32, String> = BatchOutcome::Positional(vec![40]);
    assert_eq!(
        Err(LoadError::SizeMismatch { key_count: 2, value_count: 1 }),
        resolve(&short, &keys, 0)
    );
    let mut found = HashMap::new();
    found.insert(5, 55);
    let by_key: BatchOutcome<u32, u32, String> = BatchOutcome::Keyed(found);
    assert_eq!(Ok(55), resolve(&by_key, &keys, 1));
    assert_eq!(Err(LoadError::KeyNotFoundInResult), resolve(&by_key, &keys, 0));
}

#[test]
fn position_finds_the_first_place() {
    let keys = vec![7u32, 8, 7, 9];
    assert_eq!(Some(0), position(&keys, &7));
    assert_eq!(Some(3), position(&keys, &9));
    assert_eq!(None, position(&keys, &1));
    assert_eq!(None, position(&Vec::<u32>::new(), &1));
}

#[test]
fn results_are_cloned_as_they_are() {
    let value: Result<u32, LoadError<String>> = Ok(3);
    assert_eq!(Ok(3), clone_result(&value));
    let failed: Result<u32, LoadError<String>> =
        Err(LoadError::BatchFunctionFailed(String::from("x")));
    assert_eq!(failed, clone_result(&failed));
    let mismatch: LoadError<String> = LoadError::SizeMismatch { key_count: 2, value_count: 5 };
    assert_eq!(mismatch, mismatch.clone());
    assert_eq!(LoadError::<String>::KeyNotFoundInResult, LoadError::KeyNotFoundInResult.clone());
    assert_eq!(3, expect_loaded(value));
}

#[test]
fn overlay_poll_of_an_unknown_key_is_gone() {
    let mut state = overlay(2);
    assert!(matches!(state.poll(&1), Poll::Gone));
    assert!(matches!(state.load(1), Poll::Wait));
    state.remove(&1);
    assert!(matches!(state.poll(&1), Poll::Gone));
}

#[test]
fn overlay_load_that_fills_the_queue_dispatches() {
    let mut state = overlay(2);
    let mut f = Recorder::new();
    assert!(matches!(state.load(1), Poll::Wait));
    // the same key again does not count towards the batch
    assert!(matches!(state.load(1), Poll::Wait));
    let batch = match state.load(2) {
        Poll::Dispatch(batch) => batch,
        _ => panic!("two keys fill the batch"),
    };
    assert!(state.run_batch(batch, &mut f));
    assert_eq!(vec![vec![1, 2]], f.calls);
    assert_eq!(Ok(10), ready(state.poll(&1)));
    assert_eq!(Ok(20), ready(state.poll(&2)));
}

#[test]
fn overlay_remove_gives_up_a_request_in_flight() {
    let mut state = overlay(2);
    let mut f = Recorder::new();
    assert!(matches!(state.load(1), Poll::Wait));
    let batch = match state.load(2) {
        Poll::Dispatch(batch) => batch,
        _ => panic!("two keys fill the batch"),
    };
    assert_eq!(Some(Item::Loading(1)), state.remove(&1));
    assert!(state.run_batch(batch, &mut f));
    // the key that was evicted got no result, the other did
    assert!(matches!(state.poll(&1), Poll::Gone));
    assert_eq!(Ok(20), ready(state.poll(&2)));
    // and it is loaded again when it is asked for
    assert!(matches!(state.load(1), Poll::Wait));
    state.drain(&mut f);
    assert_eq!(Ok(10), ready(state.poll(&1)));
    assert_eq!(vec![vec![1, 2], vec![1]], f.calls);
}

#[test]
fn overlay_clear_gives_up_everything() {
    let mut state = overlay(2);
    let mut f = Recorder::new();
    state.prime(9, 90);
    assert!(matches!(state.load(1), Poll::Wait));
    let batch = match state.load(2) {
        Poll::Dispatch(batch) => batch,
        _ => panic!("two keys fill the batch"),
    };
    assert!(matches!(state.load(3), Poll::Wait));
    state.clear();
    assert!(!state.run_batch(batch, &mut f));
    state.drain(&mut f);
    assert!(f.calls.is_empty());
    for key in [1, 2, 3, 9] {
        assert!(matches!(state.poll(&key), Poll::Gone));
    }
}

#[test]
fn overlay_reloads_an_item_that_names_no_request() {
    // a store that is handed over may hold an item left behind by another overlay
    let mut store = HashMap::new();
    store.insert(1u32, Item::<u32, String>::Loading(5));
    store.insert(2u32, Item::<u32, String>::Loaded(Ok(22)));
    let mut state: cached::State<u32, u32, String> = cached::State::with_cache(store);
    let mut f = Recorder::new();
    assert_eq!(Ok(22), ready(state.load(2)));
    assert!(matches!(state.poll(&1), Poll::Gone));
    assert!(matches!(state.load(1), Poll::Wait));
    state.drain(&mut f);
    assert_eq!(Ok(10), ready(state.load(1)));
    assert_eq!(vec![vec![1]], f.calls);
}

#[test]
fn overlay_stores_a_failure_as_the_result() {
    let mut state = overlay(2);
    let mut f = Unlucky { calls: 0 };
    assert!(matches!(state.load(13), Poll::Wait));
    state.drain(&mut f);
    let failure = LoadError::BatchFunctionFailed(String::from("unlucky"));
    assert_eq!(Err(failure.clone()), ready(state.load(13)));
    assert_eq!(Err(failure), ready(state.poll(&13)));
    // it is not retried by itself
    assert_eq!(1, f.calls);
}

#[test]
fn overlay_load_many_answers_in_order() {
    let mut state = overlay(2);
    state.prime(2, 222);
    let answers = state.load_many(vec![1, 2, 3, 1]);
    assert_eq!(4, answers.len());
    assert!(matches!(answers[0], Poll::Wait));
    assert!(matches!(answers[1], Poll::Ready(Ok(222))));
    assert!(matches!(answers[2], Poll::Dispatch(1)));
    assert!(matches!(answers[3], Poll::Wait));
    assert_eq!(Some(&vec![1, 3]), state.batch_keys(1));
    assert_eq!(usize::MAX - 2, state.spare_ids());
}

#[test]
fn overlay_yield_count_waits_that_often() {
    let mut state = overlay(10).with_yield_count(1);
    let mut f = Recorder::new();
    assert!(matches!(state.load(1), Poll::Wait));
    assert!(matches!(state.load(2), Poll::Wait));
    assert!(matches!(state.poll(&1), Poll::Wait));
    let batch = match state.poll(&1) {
        Poll::Dispatch(batch) => batch,
        _ => panic!("the item has waited once"),
    };
    assert!(state.run_batch(batch, &mut f));
    assert_eq!(vec![vec![1, 2]], f.calls);
    assert_eq!(Ok(20), ready(state.poll(&2)));
    assert_eq!(Ok(10), ready(state.poll(&1)));
}

#[test]
fn finished_or_foreign_handle_is_given_up_without_effect() {
    let mut state = scheduler(1);
    let mut other = scheduler(5);
    let mut f = Recorder::new();
    let (mut h1, batch) = state.load(1);
    assert!(state.run_batch(batch.unwrap(), &mut f));
    assert_eq!(Ok(10), ready(state.poll(&mut h1)));
    // the handle has finished: giving it up changes nothing
    state.cancel(h1);
    assert_eq!(0, state.queue_len());
    assert_eq!(0, state.batch_count());
    // a handle of another scheduler names no request here
    let (stranger, _) = other.load(9);
    let (mut own, _) = state.load(2);
    let (mut second, _) = state.load(3);
    assert_eq!(stranger.id(), 1);
    state.cancel(stranger);
    assert_eq!(2, state.batch_count());
    state.drain(&mut f);
    assert_eq!(Ok(20), ready(state.poll(&mut own)));
    assert_eq!(Ok(30), ready(state.poll(&mut second)));
}
