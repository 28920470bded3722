//! Pipes, ports and the processor contract: the planner's view of a
//! query, and the typed endpoints through which blocks flow between
//! processors.
//!
//! Ports live in one arena owned by the pipeline and later by the
//! executor graph. A port transition fires the port's trigger, which
//! records a directed edge in the owning node's update list; the
//! scheduler drains those lists to discover readiness without polling.

use vstd::prelude::*;

use crate::error::EngineError;
use crate::value::DataBlock;

verus! {

/// What a processor reports when polled.
#[derive(Clone, Copy, Debug, PartialEq, Eq, Structural)]
pub enum Event {
    NeedData,
    NeedConsume,
    Sync,
    Async,
    Finished,
}

/// An edge noted by a port transition, tagged with the side that
/// touched it: the scheduler re-polls the node at the other end.
#[derive(Clone, Copy, Debug, PartialEq, Eq, Structural)]
pub struct DirectedEdge {
    pub edge: usize,
    /// True when the transition happened on the source's output port;
    /// the node to re-poll is then the edge's target, and conversely.
    pub from_source_side: bool,
}

/// The write-barrier installed on one side of a wired port.
#[derive(Clone, Copy, Debug, PartialEq, Eq, Structural)]
pub struct PortTrigger {
    /// The node whose update list records the transition.
    pub owner_node: usize,
    pub edge: usize,
}

/// One single-producer single-consumer channel. The producer's output
/// end and the consumer's input end share this state; each end carries
/// its own trigger.
pub struct PortState {
    /// The one pending block, when the producer has pushed and the
    /// consumer has not yet pulled.
    pub data: Option<DataBlock>,
    pub is_finished: bool,
    pub need_data: bool,
    /// Fired by the producer's transitions; the recorded edge is
    /// walked from the source side.
    pub trigger_source: Option<PortTrigger>,
    /// Fired by the consumer's transitions; the recorded edge is
    /// walked from the target side.
    pub trigger_target: Option<PortTrigger>,
}

/// The spec-level shadow of a port: the pending block, the two flags
/// and the triggers.
pub struct PortView {
    pub data: Option<DataBlock>,
    pub is_finished: bool,
    pub need_data: bool,
    pub trigger_source: Option<PortTrigger>,
    pub trigger_target: Option<PortTrigger>,
}

impl PortView {
    /// Whether a block is pending.
    pub open spec fn has_data(&self) -> bool {
        self.data is Some
    }
}

impl View for PortState {
    type V = PortView;

    open spec fn view(&self) -> PortView {
        PortView {
            data: self.data,
            is_finished: self.is_finished,
            need_data: self.need_data,
            trigger_source: self.trigger_source,
            trigger_target: self.trigger_target,
        }
    }
}

/// The arena of every port of a pipeline, with one update list per
/// node of the executor graph.
pub struct PortArena {
    pub ports: Vec<PortState>,
    pub node_updates: Vec<Vec<DirectedEdge>>,
}

impl PortArena {
    pub open spec fn port_count(&self) -> nat {
        self.ports@.len()
    }

    pub open spec fn node_count(&self) -> nat {
        self.node_updates@.len()
    }

    pub open spec fn port_at(&self, p: int) -> PortView {
        self.ports@[p]@
    }

    pub fn new() -> (r: PortArena)
        ensures
            r.port_count() == 0,
            r.node_count() == 0,
    {
        PortArena { ports: Vec::new(), node_updates: Vec::new() }
    }

    /// Allocate a fresh, unwired port with no pending block.
    pub fn add_port(&mut self) -> (p: usize)
        ensures
            p == old(self).port_count(),
            final(self).port_count() == old(self).port_count() + 1,
            final(self).node_updates == old(self).node_updates,
            forall|q: int|
                0 <= q < old(self).port_count() ==> final(self).port_at(q) == old(self).port_at(q),
            final(self).port_at(p as int) == (PortView {
                data: Option::None,
                is_finished: false,
                need_data: false,
                trigger_source: Option::None,
                trigger_target: Option::None,
            }),
    {
        let p = self.ports.len();
        self.ports.push(
            PortState {
                data: Option::None,
                is_finished: false,
                need_data: false,
                trigger_source: Option::None,
                trigger_target: Option::None,
            },
        );
        p
    }

    /// Open the update list of a freshly inserted node.
    pub fn add_node_list(&mut self) -> (n: usize)
        ensures
            n == old(self).node_count(),
            final(self).node_count() == old(self).node_count() + 1,
            final(self).ports == old(self).ports,
            forall|m: int|
                0 <= m < old(self).node_count() ==> final(self).node_updates@[m] == old(
                    self,
                ).node_updates@[m],
            final(self).node_updates@[n as int]@ == Seq::<DirectedEdge>::empty(),
    {
        let n = self.node_updates.len();
        self.node_updates.push(Vec::new());
        proof {
            assert(self.node_updates@[n as int]@ =~= Seq::<DirectedEdge>::empty());
        }
        n
    }

    /// Drop every node update list, leaving the ports as they are;
    /// the graph lowering opens one list per node it inserts.
    pub fn reset_node_lists(&mut self)
        ensures
            final(self).ports == old(self).ports,
            final(self).node_count() == 0,
    {
        self.node_updates = Vec::new();
    }

    /// Install the producer-side write-barrier.
    pub fn set_source_trigger(&mut self, port: usize, trigger: PortTrigger)
        requires
            port < old(self).port_count(),
        ensures
            final(self).port_count() == old(self).port_count(),
            final(self).node_updates == old(self).node_updates,
            forall|q: int|
                0 <= q < old(self).port_count() && q != port ==> final(self).port_at(q) == old(
                    self,
                ).port_at(q),
            final(self).port_at(port as int) == (PortView {
                trigger_source: Option::Some(trigger),
                ..old(self).port_at(port as int)
            }),
    {
        let slot = &mut self.ports[port];
        slot.trigger_source = Option::Some(trigger);
    }

    /// Install the consumer-side write-barrier.
    pub fn set_target_trigger(&mut self, port: usize, trigger: PortTrigger)
        requires
            port < old(self).port_count(),
        ensures
            final(self).port_count() == old(self).port_count(),
            final(self).node_updates == old(self).node_updates,
            forall|q: int|
                0 <= q < old(self).port_count() && q != port ==> final(self).port_at(q) == old(
                    self,
                ).port_at(q),
            final(self).port_at(port as int) == (PortView {
                trigger_target: Option::Some(trigger),
                ..old(self).port_at(port as int)
            }),
    {
        let slot = &mut self.ports[port];
        slot.trigger_target = Option::Some(trigger);
    }
}

/// Record a port's transition in its owner node's update list; an end
/// without a trigger, or one whose owner is out of range, records
/// nothing.
fn fire_trigger(arena: &mut PortArena, port: usize, from_source_side: bool)
    requires
        port < old(arena).port_count(),
    ensures
        final(arena).ports == old(arena).ports,
        final(arena).node_count() == old(arena).node_count(),
        match (if from_source_side {
            old(arena).port_at(port as int).trigger_source
        } else {
            old(arena).port_at(port as int).trigger_target
        }) {
            Option::Some(t) => {
                if 0 <= t.owner_node < old(arena).node_count() {
                    &&& final(arena).node_updates@[t.owner_node as int]@ == old(arena).node_updates@[t.owner_node as int]@.push(
                        DirectedEdge { edge: t.edge, from_source_side },
                    )
                    &&& forall|m: int|
                        0 <= m < old(arena).node_count() && m != t.owner_node
                            ==> final(arena).node_updates@[m] == old(arena).node_updates@[m]
                } else {
                    final(arena).node_updates == old(arena).node_updates
                }
            },
            Option::None => final(arena).node_updates == old(arena).node_updates,
        },
{
    let trig = side_trigger(arena, port, from_source_side);
    match trig {
        Option::Some(t) => {
            if t.owner_node < arena.node_updates.len() {
                let list = &mut arena.node_updates[t.owner_node];
                list.push(DirectedEdge { edge: t.edge, from_source_side });
            }
        }
        Option::None => {}
    }
}

/// Read the trigger of one end of a port.
fn side_trigger(arena: &PortArena, port: usize, from_source_side: bool) -> (r: Option<PortTrigger>)
    requires
        port < arena.port_count(),
    ensures
        r == if from_source_side {
            arena.port_at(port as int).trigger_source
        } else {
            arena.port_at(port as int).trigger_target
        },
{
    if from_source_side {
        arena.ports[port].trigger_source
    } else {
        arena.ports[port].trigger_target
    }
}

impl PortArena {
    /// Whether the producer may push: no pending block, not finished.
    pub fn can_push(&self, port: usize) -> (r: bool)
        requires
            port < self.port_count(),
        ensures
            r == (self.port_at(port as int).data is None && !self.port_at(
                port as int,
            ).is_finished),
    {
        let slot = &self.ports[port];
        !matches!(slot.data, Option::Some(_)) && !slot.is_finished
    }

    pub fn has_data(&self, port: usize) -> (r: bool)
        requires
            port < self.port_count(),
        ensures
            r == self.port_at(port as int).has_data(),
    {
        matches!(self.ports[port].data, Option::Some(_))
    }

    pub fn is_finished(&self, port: usize) -> (r: bool)
        requires
            port < self.port_count(),
        ensures
            r == self.port_at(port as int).is_finished,
    {
        self.ports[port].is_finished
    }

    /// Push a block into the port and fire its trigger.
    pub fn push_data(&mut self, port: usize, block: DataBlock)
        requires
            port < old(self).port_count(),
            old(self).port_at(port as int).data is None,
        ensures
            final(self).port_count() == old(self).port_count(),
            final(self).node_count() == old(self).node_count(),
            forall|q: int|
                0 <= q < old(self).port_count() && q != port ==> final(self).port_at(q) == old(
                    self,
                ).port_at(q),
            final(self).port_at(port as int) == (PortView {
                data: Option::Some(block),
                ..old(self).port_at(port as int)
            }),
    {
        let slot = &mut self.ports[port];
        slot.data = Option::Some(block);
        fire_trigger(self, port, true);
    }

    /// Take the pending block, if any, and fire the trigger.
    pub fn pull_data(&mut self, port: usize) -> (r: Option<DataBlock>)
        requires
            port < old(self).port_count(),
        ensures
            final(self).port_count() == old(self).port_count(),
            final(self).node_count() == old(self).node_count(),
            forall|q: int|
                0 <= q < old(self).port_count() && q != port ==> final(self).port_at(q) == old(
                    self,
                ).port_at(q),
            final(self).port_at(port as int) == (PortView {
                data: Option::None,
                ..old(self).port_at(port as int)
            }),
            r == old(self).port_at(port as int).data,
    {
        let slot = &mut self.ports[port];
        let r = slot.data.take();
        fire_trigger(self, port, false);
        r
    }

    /// Mark the port finished from the producer's side and fire that
    /// side's trigger.
    pub fn output_finish(&mut self, port: usize)
        requires
            port < old(self).port_count(),
        ensures
            final(self).port_count() == old(self).port_count(),
            final(self).node_count() == old(self).node_count(),
            forall|q: int|
                0 <= q < old(self).port_count() && q != port ==> final(self).port_at(q) == old(
                    self,
                ).port_at(q),
            final(self).port_at(port as int) == (PortView {
                is_finished: true,
                ..old(self).port_at(port as int)
            }),
    {
        let slot = &mut self.ports[port];
        slot.is_finished = true;
        fire_trigger(self, port, true);
    }

    /// Mark the port finished from the consumer's side and fire that
    /// side's trigger.
    pub fn input_finish(&mut self, port: usize)
        requires
            port < old(self).port_count(),
        ensures
            final(self).port_count() == old(self).port_count(),
            final(self).node_count() == old(self).node_count(),
            forall|q: int|
                0 <= q < old(self).port_count() && q != port ==> final(self).port_at(q) == old(
                    self,
                ).port_at(q),
            final(self).port_at(port as int) == (PortView {
                is_finished: true,
                ..old(self).port_at(port as int)
            }),
    {
        let slot = &mut self.ports[port];
        slot.is_finished = true;
        fire_trigger(self, port, false);
    }

    /// Raise the consumer's need-data flag and fire the trigger.
    pub fn set_need_data(&mut self, port: usize)
        requires
            port < old(self).port_count(),
        ensures
            final(self).port_count() == old(self).port_count(),
            final(self).node_count() == old(self).node_count(),
            forall|q: int|
                0 <= q < old(self).port_count() && q != port ==> final(self).port_at(q) == old(
                    self,
                ).port_at(q),
            final(self).port_at(port as int) == (PortView {
                need_data: true,
                ..old(self).port_at(port as int)
            }),
    {
        let slot = &mut self.ports[port];
        slot.need_data = true;
        fire_trigger(self, port, false);
    }

    /// Drain a node's update list, yielding every edge its ports
    /// touched since the last inspection.
    pub fn take_updates(&mut self, node: usize) -> (r: Vec<DirectedEdge>)
        requires
            node < old(self).node_count(),
        ensures
            final(self).ports == old(self).ports,
            final(self).node_count() == old(self).node_count(),
            forall|m: int|
                0 <= m < old(self).node_count() && m != node ==> final(self).node_updates@[m]
                    == old(self).node_updates@[m],
            final(self).node_updates@[node as int]@ == Seq::<DirectedEdge>::empty(),
            r@ == old(self).node_updates@[node as int]@,
    {
        let mut r: Vec<DirectedEdge> = Vec::new();
        let list = &mut self.node_updates[node];
        core::mem::swap(list, &mut r);
        proof {
            assert(self.node_updates@[node as int]@ =~= Seq::<DirectedEdge>::empty());
        }
        r
    }
}

/// What a node of the executor graph must offer: a name for tracing,
/// a readiness poll, and a synchronous work step. Implementations
/// belong to the engine's users; the scheduler assumes nothing of
/// what `event` answers, only reacting to it.
pub trait Processor {
    fn name(&self) -> String;

    /// Poll readiness; the processor may touch its ports' states and
    /// update lists, but never the arena's shape.
    fn event(&mut self, ports: &mut PortArena) -> (r: Result<Event, EngineError>)
        ensures
            final(ports).port_count() == old(ports).port_count(),
            final(ports).node_count() == old(ports).node_count(),
    ;

    /// Run one synchronous work step, under the same bounds.
    fn process(&mut self, ports: &mut PortArena) -> (r: Result<(), EngineError>)
        ensures
            final(ports).port_count() == old(ports).port_count(),
            final(ports).node_count() == old(ports).node_count(),
    ;
}

/// One stage of a pipeline.
pub enum Pipe<P> {
    /// A fan-in or fan-out processor with any number of ports on each
    /// side.
    ResizePipe { processor: P, inputs_port: Vec<usize>, outputs_port: Vec<usize> },
    /// Parallel processors, each with at most one port per side.
    SimplePipe { processors: Vec<P>, inputs_port: Vec<usize>, outputs_port: Vec<usize> },
}

impl<P> Pipe<P> {
    /// How many processors the pipe holds.
    pub open spec fn spec_processor_count(&self) -> nat {
        match self {
            Pipe::ResizePipe { .. } => 1,
            Pipe::SimplePipe { processors, .. } => processors@.len(),
        }
    }

    /// How many input ports the pipe consumes from the stage before.
    pub open spec fn spec_input_count(&self) -> nat {
        match self {
            Pipe::ResizePipe { inputs_port, .. } => inputs_port@.len(),
            Pipe::SimplePipe { inputs_port, .. } => inputs_port@.len(),
        }
    }

    /// How many output ports the pipe hands to the stage after.
    pub open spec fn spec_output_count(&self) -> nat {
        match self {
            Pipe::ResizePipe { outputs_port, .. } => outputs_port@.len(),
            Pipe::SimplePipe { outputs_port, .. } => outputs_port@.len(),
        }
    }
}

/// The planner's product: an ordered sequence of pipes over one port
/// arena.
pub struct Pipeline<P> {
    pub pipes: Vec<Pipe<P>>,
    pub ports: PortArena,
}

/// The number of nodes that lowering the pipes will insert.
pub open spec fn pipes_processor_count<P>(pipes: Seq<Pipe<P>>) -> nat
    decreases pipes.len(),
{
    if pipes.len() == 0 {
        0
    } else {
        pipes_processor_count(pipes.drop_last()) + pipes.last().spec_processor_count()
    }
}

/// The number of edges that lowering the pipes will insert.
pub open spec fn pipes_input_count<P>(pipes: Seq<Pipe<P>>) -> nat
    decreases pipes.len(),
{
    if pipes.len() == 0 {
        0
    } else {
        pipes_input_count(pipes.drop_last()) + pipes.last().spec_input_count()
    }
}

} // verus!
