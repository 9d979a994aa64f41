use dag_flow::context::Context;
use dag_flow::engine::{Engine, EngineBuilder};
use dag_flow::task::Task;
use futures::executor::block_on;
use futures::future::{BoxFuture, Shared};
use futures::stream::FuturesUnordered;
use futures::{FutureExt, StreamExt};
use std::collections::HashMap;
use std::future::Future;
use std::pin::Pin;
use std::sync::{Arc, Mutex};
use std::task::{Context as Waking, Poll};

/// The handle to a result: any number of observers can await it, and all
/// of them see the one value that it resolves to.
type Handle = Shared<BoxFuture<'static, Option<u64>>>;

/// What happened during a run, in order.
type Log = Arc<Mutex<Vec<(&'static str, u64)>>>;

/// Gives way to the other computations a number of times.
struct Pause(u64);

impl Future for Pause {
    type Output = ();

    fn poll(mut self: Pin<&mut Self>, waking: &mut Waking<'_>) -> Poll<()> {
        if self.0 == 0 {
            Poll::Ready(())
        } else {
            self.0 -= 1;
            waking.waker().wake_by_ref();
            Poll::Pending
        }
    }
}

#[derive(Clone)]
enum Work {
    Constant { id: u64, value: u64 },
    Nothing { id: u64 },
    Square { id: u64, delay: u64 },
    SquareOf { id: u64, of: u64 },
    Sum { id: u64, of: Vec<u64> },
}

impl Work {
    async fn run(self, inputs: HashMap<u64, Handle>, log: Log) -> Option<u64> {
        log.lock().unwrap().push(("begin", Task::id(&self)));
        let result = match &self {
            Work::Constant { value, .. } => Some(*value),
            Work::Nothing { .. } => None,
            Work::Square { delay, .. } => {
                Pause(*delay).await;
                Some(delay * delay)
            }
            Work::SquareOf { of, .. } => inputs[of].clone().await.map(|value| value * value),
            Work::Sum { of, .. } => {
                let values: Vec<Option<u64>> = of
                    .iter()
                    .map(|id| inputs[id].clone())
                    .collect::<FuturesUnordered<_>>()
                    .collect()
                    .await;
                values.into_iter().sum()
            }
        };
        log.lock().unwrap().push(("end", Task::id(&self)));
        result
    }
}

impl Task for Work {
    fn id(&self) -> u64 {
        match self {
            Work::Constant { id, .. }
            | Work::Nothing { id }
            | Work::Square { id, .. }
            | Work::SquareOf { id, .. }
            | Work::Sum { id, .. } => *id,
        }
    }

    fn dependencies(&self) -> Vec<u64> {
        match self {
            Work::Constant { .. } | Work::Nothing { .. } | Work::Square { .. } => Vec::new(),
            Work::SquareOf { of, .. } => vec![*of],
            Work::Sum { of, .. } => of.clone(),
        }
    }
}

/// Starts every task as a shared computation, then waits for all of them.
fn run_to_the_end(engine: &Engine<Work>, context: &mut Context<Handle>, log: &Log) -> Vec<u64> {
    let order = engine.run(context, |task: &Work, inputs: HashMap<u64, Handle>| {
        task.clone().run(inputs, log.clone()).boxed().shared()
    });
    let handles: FuturesUnordered<Handle> =
        order.iter().flat_map(|node| context.get(node)).cloned().collect();
    block_on(handles.collect::<Vec<_>>());
    order
}

fn engine_of(tasks: Vec<Work>) -> Engine<Work> {
    let mut builder = EngineBuilder::new();
    for task in tasks {
        builder.add_task(task);
    }
    builder.build().unwrap()
}

fn times(log: &Log, event: &str, id: u64) -> usize {
    log.lock().unwrap().iter().filter(|entry| **entry == (event, id)).count()
}

#[test]
fn chain_resolves_to_the_square() {
    let engine =
        engine_of(vec![Work::Constant { id: 1, value: 10 }, Work::SquareOf { id: 2, of: 1 }]);
    let mut context = Context::new();
    let log = Log::default();
    run_to_the_end(&engine, &mut context, &log);
    assert_eq!(block_on(context.get(&1).unwrap().clone()), Some(10));
    assert_eq!(block_on(context.get(&2).unwrap().clone()), Some(100));
}

#[test]
fn nothing_is_started_before_a_handle_is_awaited() {
    let engine =
        engine_of(vec![Work::Constant { id: 1, value: 10 }, Work::SquareOf { id: 2, of: 1 }]);
    let mut context = Context::new();
    let log = Log::default();
    engine.run(&mut context, |task: &Work, inputs: HashMap<u64, Handle>| {
        task.clone().run(inputs, log.clone()).boxed().shared()
    });
    assert!(context.get(&1).is_some());
    assert!(context.get(&2).is_some());
    assert!(log.lock().unwrap().is_empty());
    assert_eq!(block_on(context.get(&2).unwrap().clone()), Some(100));
    assert_eq!(times(&log, "end", 1), 1);
    assert_eq!(times(&log, "end", 2), 1);
}

#[test]
fn squares_run_side_by_side_and_sum_up() {
    let engine = engine_of(vec![
        Work::Square { id: 1, delay: 1 },
        Work::Square { id: 2, delay: 2 },
        Work::Square { id: 3, delay: 3 },
        Work::Sum { id: 4, of: vec![1, 2, 3] },
    ]);
    let mut context = Context::new();
    let log = Log::default();
    run_to_the_end(&engine, &mut context, &log);
    assert_eq!(block_on(context.get(&1).unwrap().clone()), Some(1));
    assert_eq!(block_on(context.get(&2).unwrap().clone()), Some(4));
    assert_eq!(block_on(context.get(&3).unwrap().clone()), Some(9));
    assert_eq!(block_on(context.get(&4).unwrap().clone()), Some(14));
    let log = log.lock().unwrap();
    let first_end = log.iter().position(|(event, _)| *event == "end").unwrap();
    for leaf in [1, 2, 3] {
        let begin = log.iter().position(|entry| *entry == ("begin", leaf)).unwrap();
        assert!(begin < first_end);
    }
    let ends: Vec<u64> =
        log.iter().filter(|(event, _)| *event == "end").map(|(_, id)| *id).collect();
    assert_eq!(ends, vec![1, 2, 3, 4]);
}

#[test]
fn task_runs_once_however_many_await_it() {
    let engine = engine_of(vec![
        Work::Constant { id: 1, value: 3 },
        Work::SquareOf { id: 2, of: 1 },
        Work::SquareOf { id: 3, of: 1 },
        Work::Sum { id: 4, of: vec![1, 2, 3, 1] },
    ]);
    let mut context = Context::new();
    let log = Log::default();
    run_to_the_end(&engine, &mut context, &log);
    for id in 1..=4 {
        assert_eq!(times(&log, "begin", id), 1);
        assert_eq!(times(&log, "end", id), 1);
    }
    for _ in 0..3 {
        assert_eq!(block_on(context.get(&1).unwrap().clone()), Some(3));
        assert_eq!(block_on(context.get(&4).unwrap().clone()), Some(3 + 9 + 9 + 3));
    }
    assert_eq!(times(&log, "begin", 1), 1);
    assert_eq!(times(&log, "begin", 4), 1);
}

#[test]
fn absent_value_reaches_the_dependents() {
    let engine = engine_of(vec![
        Work::Nothing { id: 1 },
        Work::SquareOf { id: 2, of: 1 },
        Work::Sum { id: 3, of: vec![2] },
    ]);
    let mut context = Context::new();
    let log = Log::default();
    run_to_the_end(&engine, &mut context, &log);
    assert_eq!(block_on(context.get(&1).unwrap().clone()), None);
    assert_eq!(block_on(context.get(&2).unwrap().clone()), None);
    assert_eq!(block_on(context.get(&3).unwrap().clone()), None);
}

#[test]
fn engine_serves_two_runs() {
    let engine =
        engine_of(vec![Work::Constant { id: 1, value: 2 }, Work::SquareOf { id: 2, of: 1 }]);
    let copy = engine.clone();
    let mut first = Context::new();
    let mut second = Context::new();
    let log = Log::default();
    run_to_the_end(&engine, &mut first, &log);
    run_to_the_end(&copy, &mut second, &log);
    assert_eq!(block_on(first.get(&2).unwrap().clone()), Some(4));
    assert_eq!(block_on(second.get(&2).unwrap().clone()), Some(4));
    assert_eq!(times(&log, "begin", 1), 2);
    assert_eq!(times(&log, "begin", 2), 2);
}
