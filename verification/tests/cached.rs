use dataloader::batch_fn::BatchOutcome;
use dataloader::cached::State;
use dataloader::error::LoadError;
use dataloader::non_cached::gather;
use dataloader::request::Poll;
use dataloader::BatchFn;
use std::collections::{HashMap, HashSet};

struct PlainLoadFn;

impl BatchFn<usize, usize> for PlainLoadFn {
    type Error = ();

    fn load(&mut self, keys: &[usize]) -> BatchOutcome<usize, usize, ()> {
        BatchOutcome::Keyed(keys.iter().map(|v| (v.clone(), v.clone())).collect::<HashMap<_, _>>())
    }
}

#[derive(Clone)]
struct Thing(usize);

impl BatchFn<usize, Thing> for PlainLoadFn {
    type Error = ();

    fn load(&mut self, keys: &[usize]) -> BatchOutcome<usize, Thing, ()> {
        BatchOutcome::Keyed(
            keys.iter().map(|v| (v.clone(), Thing(v.clone()))).collect::<HashMap<_, _>>(),
        )
    }
}

struct HistoryLoadFn {
    loaded_keys: HashSet<usize>,
    max_batch_loaded: usize,
}

impl BatchFn<usize, usize> for HistoryLoadFn {
    type Error = ();

    fn load(&mut self, keys: &[usize]) -> BatchOutcome<usize, usize, ()> {
        if keys.len() > self.max_batch_loaded {
            self.max_batch_loaded = keys.len();
        }
        for k in keys {
            if self.loaded_keys.contains(k) {
                panic!("already loaded, loader should not request same key");
            }
        }
        let mut found = HashMap::new();
        for v in keys {
            self.loaded_keys.insert(v.clone());
            found.insert(v.clone(), v.clone());
        }
        BatchOutcome::Keyed(found)
    }
}

struct LoadFnForEmptyTest;

impl BatchFn<usize, usize> for LoadFnForEmptyTest {
    type Error = ();

    fn load(&mut self, _keys: &[usize]) -> BatchOutcome<usize, usize, ()> {
        BatchOutcome::Keyed(HashMap::new())
    }
}

/// One caller's part of a run: the keys it asks for before it waits.
struct Caller {
    keys: Vec<usize>,
    results: Vec<Option<Result<usize, LoadError<()>>>>,
}

fn follow<F: BatchFn<usize, usize, Error = ()>>(
    state: &mut State<usize, usize, ()>,
    f: &mut F,
    answer: Poll<usize, ()>,
) -> Option<Result<usize, LoadError<()>>> {
    match answer {
        Poll::Ready(result) => Some(result),
        Poll::Dispatch(batch) => {
            assert!(state.run_batch(batch, f));
            None
        }
        Poll::Wait => None,
        Poll::Gone => panic!("the overlay lost a key"),
    }
}

impl Caller {
    fn new() -> Caller {
        Caller { keys: Vec::new(), results: Vec::new() }
    }

    fn load<F: BatchFn<usize, usize, Error = ()>>(
        &mut self,
        state: &mut State<usize, usize, ()>,
        f: &mut F,
        key: usize,
    ) {
        let answer = state.load(key);
        self.keys.push(key);
        self.results.push(follow(state, f, answer));
    }

    fn load_many<F: BatchFn<usize, usize, Error = ()>>(
        &mut self,
        state: &mut State<usize, usize, ()>,
        f: &mut F,
        keys: Vec<usize>,
    ) -> std::ops::Range<usize> {
        let start = self.keys.len();
        let answers = state.load_many(keys.clone());
        for (key, answer) in keys.into_iter().zip(answers) {
            self.keys.push(key);
            self.results.push(follow(state, f, answer));
        }
        start..self.keys.len()
    }

    /// Advances every key that has no result yet, once.
    fn step<F: BatchFn<usize, usize, Error = ()>>(
        &mut self,
        state: &mut State<usize, usize, ()>,
        f: &mut F,
    ) -> bool {
        let mut waiting = false;
        for i in 0..self.keys.len() {
            if self.results[i].is_some() {
                continue;
            }
            let answer = state.poll(&self.keys[i]);
            self.results[i] = follow(state, f, answer);
            waiting = waiting || self.results[i].is_none();
        }
        waiting
    }

    fn gathered(&mut self, range: std::ops::Range<usize>) -> HashMap<usize, usize> {
        let mut pairs = Vec::new();
        for i in range {
            pairs.push((self.keys[i], self.results[i].take().unwrap()));
        }
        gather(pairs).unwrap()
    }
}

fn sorted(map: &HashMap<usize, usize>) -> Vec<usize> {
    let mut keys = map.keys().cloned().collect::<Vec<_>>();
    keys.sort();
    keys
}

#[test]
fn cached_assert_kinds() {
    fn _assert_send<T: Send>() {}
    fn _assert_sync<T: Sync>() {}
    _assert_send::<State<usize, usize, ()>>();
    _assert_sync::<State<usize, usize, ()>>();

    _assert_send::<State<usize, Thing, ()>>();
    _assert_sync::<State<usize, Thing, ()>>();

    let mut things: State<usize, Thing, ()> = State::new();
    assert!(matches!(things.load(7), Poll::Wait));
    things.drain(&mut PlainLoadFn);
    match things.poll(&7) {
        Poll::Ready(Ok(Thing(v))) => assert_eq!(7, v),
        _ => panic!("the result is stored after the batch"),
    }
}

#[test]
fn cached_test_load() {
    let mut i = 0;
    while i < 1000 {
        let mut load_fn = HistoryLoadFn { loaded_keys: HashSet::new(), max_batch_loaded: 0 };
        let mut loader: State<usize, usize, ()> = State::new().with_max_batch_size(4).unwrap();

        // three callers ask for their keys before any of them waits
        let mut c1 = Caller::new();
        c1.load(&mut loader, &mut load_fn, 1);
        c1.load(&mut loader, &mut load_fn, 2);
        c1.load(&mut loader, &mut load_fn, 3);
        let r4 = c1.load_many(&mut loader, &mut load_fn, vec![2, 3, 4, 5, 6, 7, 8]);

        let mut c2 = Caller::new();
        c2.load(&mut loader, &mut load_fn, 1);
        c2.load(&mut loader, &mut load_fn, 2);
        c2.load(&mut loader, &mut load_fn, 3);
        c2.load(&mut loader, &mut load_fn, 4);

        let mut c3 = Caller::new();
        let m1 = c3.load_many(&mut loader, &mut load_fn, vec![12, 13, 14, 1, 2, 3, 4]);
        let m2 = c3.load_many(&mut loader, &mut load_fn, vec![1, 2, 3, 4, 5, 6, 7]);
        let m3 = c3.load_many(&mut loader, &mut load_fn, vec![9, 10, 11, 12, 13, 14]);

        loop {
            let w1 = c1.step(&mut loader, &mut load_fn);
            let w2 = c2.step(&mut loader, &mut load_fn);
            let w3 = c3.step(&mut loader, &mut load_fn);
            if !(w1 || w2 || w3) {
                break;
            }
        }

        let v4 = c1.gathered(r4);
        assert_eq!(vec![2, 3, 4, 5, 6, 7, 8], sorted(&v4));

        let v1 = c3.gathered(m1);
        assert_eq!(vec![1, 2, 3, 4, 12, 13, 14], sorted(&v1));

        let v2 = c3.gathered(m2);
        assert_eq!(vec![1, 2, 3, 4, 5, 6, 7], sorted(&v2));

        let v3 = c3.gathered(m3);
        assert_eq!(vec![9, 10, 11, 12, 13, 14], sorted(&v3));

        i += 1;

        let max_batch_size = loader.max_batch_size();
        assert!(load_fn.max_batch_loaded > 1);
        assert!(
            load_fn.max_batch_loaded <= max_batch_size,
            "max_batch_loaded({}) <= max_batch_size({})",
            load_fn.max_batch_loaded,
            max_batch_size
        );
    }
}

#[test]
#[should_panic(expected = "could not lookup result for given key: 1337")]
fn test_load_unresolved_key() {
    let mut load_fn = LoadFnForEmptyTest;
    let mut loader: State<usize, usize, ()> = State::new().with_max_batch_size(4).unwrap();

    let mut caller = Caller::new();
    caller.load(&mut loader, &mut load_fn, 1337);
    while caller.step(&mut loader, &mut load_fn) {}
    // the strict way to read a result has no value to give here
    match caller.results[0].take().unwrap() {
        Ok(_) => {}
        Err(LoadError::KeyNotFoundInResult) => {
            panic!("could not lookup result for given key: {:?}", caller.keys[0])
        }
        Err(_) => panic!("another failure"),
    }
}

#[test]
fn test_load_safe_unresolved_key() {
    let mut load_fn = LoadFnForEmptyTest;
    let mut loader: State<usize, usize, ()> = State::new().with_max_batch_size(4).unwrap();

    let mut caller = Caller::new();
    caller.load(&mut loader, &mut load_fn, 1337);
    while caller.step(&mut loader, &mut load_fn) {}
    let fv = caller.results[0].take().unwrap();

    assert!(fv.is_err());
    assert_eq!(Err(LoadError::KeyNotFoundInResult), fv);
}

#[test]
fn cached_test_load_many() {
    let mut i = 0;
    while i < 10 {
        let mut load_fn = HistoryLoadFn { loaded_keys: HashSet::new(), max_batch_loaded: 0 };
        let mut loader: State<usize, usize, ()> = State::new().with_max_batch_size(4).unwrap();

        let mut caller = Caller::new();
        let r = caller.load_many(&mut loader, &mut load_fn, vec![2, 3, 4, 5, 6, 7, 8]);
        while caller.step(&mut loader, &mut load_fn) {}
        let _fv = caller.gathered(r);
        i += 1;

        let max_batch_size = loader.max_batch_size();
        assert!(load_fn.max_batch_loaded > 1);
        assert!(
            load_fn.max_batch_loaded <= max_batch_size,
            "max_batch_loaded({}) <= max_batch_size({})",
            load_fn.max_batch_loaded,
            max_batch_size
        );
    }
}
