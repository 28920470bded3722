//! The executor graph: pipeline lowering, the scheduling pass, and
//! task dispatch.

use query_core::error::EngineError;
use query_core::executor::{
    ExecutingGraph, ExecutorTask, ExecutorTasksQueue, ExecutorWorkerContext, NodeState,
    RunningGraph, ScheduleQueue,
};
use query_core::fuse_source::{FuseNativeSource, PartInfo};
use query_core::pipeline::{Event, Pipe, Pipeline, PortArena, Processor};
use query_core::value::DataBlock;

/// A minimal processor family for driving the graph in tests: sources
/// push a fixed number of blocks, a resize node forwards, and sinks
/// drain.
enum TestProc {
    Source { output: usize, remaining: usize },
    Resize { inputs: Vec<usize>, output: usize },
    Sink { input: usize, seen: usize },
}

impl Processor for TestProc {
    fn name(&self) -> String {
        match self {
            TestProc::Source { .. } => "TestSource".to_string(),
            TestProc::Resize { .. } => "TestResize".to_string(),
            TestProc::Sink { .. } => "TestSink".to_string(),
        }
    }

    fn event(&mut self, ports: &mut PortArena) -> Result<Event, EngineError> {
        match self {
            TestProc::Source { output, remaining } => {
                if ports.is_finished(*output) {
                    return Ok(Event::Finished);
                }
                if *remaining == 0 {
                    ports.output_finish(*output);
                    return Ok(Event::Finished);
                }
                if !ports.can_push(*output) {
                    return Ok(Event::NeedConsume);
                }
                ports.push_data(*output, DataBlock::empty());
                *remaining -= 1;
                Ok(Event::NeedConsume)
            }
            TestProc::Resize { inputs, output } => {
                for i in 0..inputs.len() {
                    let port = inputs[i];
                    if ports.has_data(port) {
                        if !ports.can_push(*output) {
                            return Ok(Event::NeedConsume);
                        }
                        let block = ports.pull_data(port).expect("data was observed");
                        ports.push_data(*output, block);
                        return Ok(Event::NeedData);
                    }
                }
                let all_done = (0..inputs.len()).all(|i| ports.is_finished(inputs[i]));
                if all_done {
                    ports.output_finish(*output);
                    return Ok(Event::Finished);
                }
                for i in 0..inputs.len() {
                    ports.set_need_data(inputs[i]);
                }
                Ok(Event::NeedData)
            }
            TestProc::Sink { input, seen } => {
                if ports.has_data(*input) {
                    let _ = ports.pull_data(*input);
                    *seen += 1;
                    return Ok(Event::NeedData);
                }
                if ports.is_finished(*input) {
                    return Ok(Event::Finished);
                }
                ports.set_need_data(*input);
                Ok(Event::NeedData)
            }
        }
    }

    fn process(&mut self, _ports: &mut PortArena) -> Result<(), EngineError> {
        Ok(())
    }
}

#[test]
fn lowering_builds_five_nodes_and_four_edges() {
    // Three sources, a three-to-one resize, one sink.
    let mut ports = PortArena::new();
    let s0 = ports.add_port();
    let s1 = ports.add_port();
    let s2 = ports.add_port();
    let merged = ports.add_port();
    let pipes = vec![
        Pipe::SimplePipe {
            processors: vec![
                TestProc::Source { output: s0, remaining: 0 },
                TestProc::Source { output: s1, remaining: 0 },
                TestProc::Source { output: s2, remaining: 0 },
            ],
            inputs_port: Vec::new(),
            outputs_port: vec![s0, s1, s2],
        },
        Pipe::ResizePipe {
            processor: TestProc::Resize { inputs: vec![s0, s1, s2], output: merged },
            inputs_port: vec![s0, s1, s2],
            outputs_port: vec![merged],
        },
        Pipe::SimplePipe {
            processors: vec![TestProc::Sink { input: merged, seen: 0 }],
            inputs_port: vec![merged],
            outputs_port: Vec::new(),
        },
    ];
    let graph = ExecutingGraph::create(Pipeline { pipes, ports }).unwrap();
    assert_eq!(graph.node_total(), 5);
    assert_eq!(graph.edge_total(), 4);
    // The one sink node is the final pipe's processor.
    assert_eq!(graph.sink_nodes(), vec![4]);
}

#[test]
fn malformed_pipelines_are_internal_faults() {
    // The carry stack is left with one unconsumed output.
    let mut ports = PortArena::new();
    let out = ports.add_port();
    let pipes = vec![Pipe::SimplePipe {
        processors: vec![TestProc::Source { output: out, remaining: 0 }],
        inputs_port: Vec::new(),
        outputs_port: vec![out],
    }];
    match ExecutingGraph::create(Pipeline { pipes, ports }) {
        Err(err) => assert_eq!(err.kind(), query_core::ErrorKind::Internal),
        Ok(_) => panic!("a pipeline with leftover outputs must be rejected"),
    }
}

#[test]
fn initial_wave_schedules_every_parallel_source() {
    // Three parallel scan sources with no ports at all: every node is
    // a sink, and each wants a worker after picking its partition.
    let mut ports = PortArena::new();
    let p0 = ports.add_port();
    let p1 = ports.add_port();
    let p2 = ports.add_port();
    let source = |port: usize, blocking: bool| {
        FuseNativeSource::create(
            vec![PartInfo { name: "part".to_string() }],
            port,
            Vec::new(),
            0,
            None,
            blocking,
        )
    };
    let pipes = vec![Pipe::SimplePipe {
        processors: vec![source(p0, true), source(p1, false), source(p2, true)],
        inputs_port: Vec::new(),
        outputs_port: Vec::new(),
    }];
    let mut graph = RunningGraph::create(Pipeline { pipes, ports }).unwrap();
    let queue = graph.init_schedule_queue().unwrap();
    // One task per source; blocking readers are synchronous work.
    assert_eq!(queue.sync_queue.len() + queue.async_queue.len(), 3);
    let sync: Vec<usize> = queue.sync_queue.iter().cloned().collect();
    let not_sync: Vec<usize> = queue.async_queue.iter().cloned().collect();
    assert_eq!(sync, vec![0, 2]);
    assert_eq!(not_sync, vec![1]);
    for id in 0..3 {
        assert_eq!(graph.0.nodes[id].state, NodeState::Processing);
    }
}

#[test]
fn finished_producers_finish_the_consumer() {
    // Two exhausted sources feed a resize node feeding a sink; the
    // initial wave alone propagates completion through the triggers.
    let mut ports = PortArena::new();
    let a = ports.add_port();
    let b = ports.add_port();
    let merged = ports.add_port();
    let pipes = vec![
        Pipe::SimplePipe {
            processors: vec![
                TestProc::Source { output: a, remaining: 1 },
                TestProc::Source { output: b, remaining: 0 },
            ],
            inputs_port: Vec::new(),
            outputs_port: vec![a, b],
        },
        Pipe::ResizePipe {
            processor: TestProc::Resize { inputs: vec![a, b], output: merged },
            inputs_port: vec![a, b],
            outputs_port: vec![merged],
        },
        Pipe::SimplePipe {
            processors: vec![TestProc::Sink { input: merged, seen: 0 }],
            inputs_port: vec![merged],
            outputs_port: Vec::new(),
        },
    ];
    let mut graph = RunningGraph::create(Pipeline { pipes, ports }).unwrap();
    let queue = graph.init_schedule_queue().unwrap();
    assert_eq!(queue.sync_queue.len() + queue.async_queue.len(), 0);
    for id in 0..4 {
        assert_eq!(graph.0.nodes[id].state, NodeState::Finished, "node {}", id);
    }
    match &graph.0.nodes[3].processor {
        TestProc::Sink { seen, .. } => assert_eq!(*seen, 1),
        _ => panic!("node 3 is the sink"),
    }
}

#[test]
fn dispatch_prefers_sync_work() {
    // One sync and one async task: the worker steals the sync task and
    // the async task goes onto its global tail.
    let mut queue = ScheduleQueue::create();
    queue.push_sync(7);
    queue.push_async(9);
    let mut global = ExecutorTasksQueue::create(2);
    let mut ctx = ExecutorWorkerContext::create(1);
    queue.schedule(&mut global, &mut ctx);
    assert_eq!(ctx.take_task(), Some(ExecutorTask::Sync(7)));
    assert_eq!(global.queues[1].len(), 1);
    assert_eq!(global.queues[1][0], ExecutorTask::Async(9));
    assert_eq!(global.queues[0].len(), 0);
}

#[test]
fn dispatch_with_only_async_steals_async() {
    let mut queue = ScheduleQueue::create();
    queue.push_async(4);
    let mut global = ExecutorTasksQueue::create(1);
    let mut ctx = ExecutorWorkerContext::create(0);
    queue.schedule(&mut global, &mut ctx);
    assert_eq!(ctx.take_task(), Some(ExecutorTask::Async(4)));
    assert_eq!(global.queues[0].len(), 0);
}

#[test]
fn pop_task_drains_sync_before_async() {
    let mut queue = ScheduleQueue::create();
    queue.push_async(2);
    queue.push_sync(1);
    assert_eq!(queue.pop_task(), Some(ExecutorTask::Sync(1)));
    assert_eq!(queue.pop_task(), Some(ExecutorTask::Async(2)));
    assert_eq!(queue.pop_task(), None);
}

#[test]
fn schedule_tail_keeps_sync_before_async() {
    let mut queue = ScheduleQueue::create();
    queue.push_sync(1);
    queue.push_async(2);
    queue.push_sync(3);
    let mut global = ExecutorTasksQueue::create(1);
    queue.schedule_tail(0, &mut global);
    let tail: Vec<ExecutorTask> = global.queues[0].iter().cloned().collect();
    assert_eq!(tail, vec![
        ExecutorTask::Sync(1),
        ExecutorTask::Sync(3),
        ExecutorTask::Async(2),
    ]);
}
