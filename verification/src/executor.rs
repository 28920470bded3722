//! The executor graph: a planner's pipeline lowered into a directed
//! acyclic graph of processor nodes, and the cooperative scheduling
//! pass that polls readiness and collects work items.
//!
//! The graph's topology is held in a petgraph stable graph behind a
//! small trusted boundary; nodes never leave the graph, so node and
//! edge indices are handed out consecutively.

use vstd::prelude::*;
use vstd::string::StringExecFns;
use std::collections::VecDeque;
use petgraph::stable_graph::StableGraph;
use petgraph::Directed;
use petgraph::Direction;

use crate::error::EngineError;
use crate::error::ErrorKind;
use crate::pipeline::DirectedEdge;
use crate::pipeline::Event;
use crate::pipeline::Pipe;
use crate::pipeline::Pipeline;
use crate::pipeline::PortArena;
use crate::pipeline::PortTrigger;
use crate::pipeline::Processor;
use crate::pipeline::pipes_input_count;
use crate::pipeline::pipes_processor_count;

verus! {

#[verifier::external_type_specification]
#[verifier::external_body]
#[verifier::reject_recursive_types(N)]
#[verifier::reject_recursive_types(E)]
#[verifier::reject_recursive_types(Ty)]
#[verifier::reject_recursive_types(Ix)]
pub struct ExStableGraph<N, E, Ty, Ix>(StableGraph<N, E, Ty, Ix>);

#[verifier::external_type_specification]
#[verifier::external_body]
pub struct ExDirected(Directed);

/// The edges of the topology, in insertion order, as pairs of node
/// indices.
pub uninterp spec fn pg_edges(g: &StableGraph<(), (), Directed, u32>) -> Seq<(usize, usize)>;

/// How many nodes the topology holds.
pub uninterp spec fn pg_node_total(g: &StableGraph<(), (), Directed, u32>) -> nat;

/// Whether the graph has never had a node or edge removed, so that
/// both free lists are empty and indices are handed out consecutively.
pub uninterp spec fn pg_compact(g: &StableGraph<(), (), Directed, u32>) -> bool;

/// Whether node `n` is a sink: the source of no edge.
pub open spec fn pg_is_sink(edges: Seq<(usize, usize)>, n: usize) -> bool {
    forall|e: int| 0 <= e < edges.len() ==> (#[trigger] edges[e]).0 != n
}

/// Relies on `StableGraph::new`: an empty graph.
#[verifier::external_body]
fn pg_new() -> (g: StableGraph<(), (), Directed, u32>)
    ensures
        pg_edges(&g) == Seq::<(usize, usize)>::empty(),
        pg_node_total(&g) == 0,
        pg_compact(&g),
{
    StableGraph::new()
}

/// Relies on `StableGraph::add_node`: with an empty free list the new
/// node is appended, and its index is the previous node count.
#[verifier::external_body]
fn pg_add_node(g: &mut StableGraph<(), (), Directed, u32>) -> (i: usize)
    requires
        pg_compact(old(g)),
        pg_node_total(old(g)) < u32::MAX,
    ensures
        i == pg_node_total(old(g)),
        pg_node_total(final(g)) == pg_node_total(old(g)) + 1,
        pg_edges(final(g)) == pg_edges(old(g)),
        pg_compact(final(g)),
{
    g.add_node(()).index()
}

/// Relies on `StableGraph::add_edge`: with an empty free list the new
/// edge is appended, and its index is the previous edge count.
#[verifier::external_body]
fn pg_add_edge(g: &mut StableGraph<(), (), Directed, u32>, a: usize, b: usize) -> (e: usize)
    requires
        pg_compact(old(g)),
        (a as nat) < pg_node_total(old(g)),
        (b as nat) < pg_node_total(old(g)),
        pg_edges(old(g)).len() < u32::MAX,
    ensures
        e == pg_edges(old(g)).len(),
        pg_edges(final(g)) == pg_edges(old(g)).push((a, b)),
        pg_node_total(final(g)) == pg_node_total(old(g)),
        pg_compact(final(g)),
{
    g.add_edge(
        petgraph::stable_graph::NodeIndex::new(a),
        petgraph::stable_graph::NodeIndex::new(b),
        (),
    ).index()
}

/// Relies on `StableGraph::edge_endpoints`: the pair of node indices
/// the edge was added with, or nothing for an index never handed out.
/// An index at or past the index type's sentinel is rejected before
/// the lookup, since building it would truncate; the graph can never
/// hold that many edges, so such an index names no edge.
#[verifier::external_body]
fn pg_edge_endpoints(g: &StableGraph<(), (), Directed, u32>, e: usize) -> (r: Option<
    (usize, usize),
>)
    requires
        pg_compact(g),
    ensures
        r == if (e as nat) < pg_edges(g).len() {
            Option::Some(pg_edges(g)[e as int])
        } else {
            Option::<(usize, usize)>::None
        },
{
    if e >= u32::MAX as usize {
        return Option::None;
    }
    match g.edge_endpoints(petgraph::stable_graph::EdgeIndex::new(e)) {
        Option::Some((a, b)) => Option::Some((a.index(), b.index())),
        Option::None => Option::None,
    }
}

/// Relies on `StableGraph::externals` with the outgoing direction: the
/// occupied nodes that are the source of no edge, in ascending index
/// order.
#[verifier::external_body]
fn pg_sinks(g: &StableGraph<(), (), Directed, u32>) -> (r: Vec<usize>)
    requires
        pg_compact(g),
    ensures
        forall|j: int|
            0 <= j < r@.len() ==> ((#[trigger] r@[j] as nat) < pg_node_total(g) && pg_is_sink(
                pg_edges(g),
                r@[j],
            )),
        forall|n: usize|
            (n as nat) < pg_node_total(g) && pg_is_sink(pg_edges(g), n) ==> r@.contains(n),
        forall|j1: int, j2: int| 0 <= j1 < j2 < r@.len() ==> r@[j1] < r@[j2],
{
    g.externals(Direction::Outgoing).map(|i| i.index()).collect()
}

/// Relies on `StableGraph::edge_count`: how many edges the graph
/// holds; with no removals this is the length of the edge list.
#[verifier::external_body]
fn pg_edge_count(g: &StableGraph<(), (), Directed, u32>) -> (r: usize)
    requires
        pg_compact(g),
    ensures
        r == pg_edges(g).len(),
{
    g.edge_count()
}

/// A node's schedule state.
#[derive(Clone, Copy, Debug, PartialEq, Eq, Structural)]
pub enum NodeState {
    Idle,
    Preparing,
    Processing,
    Finished,
}

/// The executor's wrapper around a processor: its schedule state and
/// its ports.
pub struct Node<P> {
    pub state: NodeState,
    pub processor: P,
    pub inputs_port: Vec<usize>,
    pub outputs_port: Vec<usize>,
}

impl<P> Node<P> {
    pub fn create(processor: P, inputs_port: Vec<usize>, outputs_port: Vec<usize>) -> (r: Node<P>)
        ensures
            r.state == NodeState::Idle,
            r.processor == processor,
            r.inputs_port@ == inputs_port@,
            r.outputs_port@ == outputs_port@,
    {
        Node { state: NodeState::Idle, processor, inputs_port, outputs_port }
    }
}

impl<P> Pipe<P> {
    /// The pipe's output port ids.
    pub open spec fn spec_outputs(&self) -> Seq<usize> {
        match self {
            Pipe::ResizePipe { outputs_port, .. } => outputs_port@,
            Pipe::SimplePipe { outputs_port, .. } => outputs_port@,
        }
    }

    /// The pipe's input port ids.
    pub open spec fn spec_inputs(&self) -> Seq<usize> {
        match self {
            Pipe::ResizePipe { inputs_port, .. } => inputs_port@,
            Pipe::SimplePipe { inputs_port, .. } => inputs_port@,
        }
    }

    /// Whether the pipe fits where the lowering stands: its inputs are
    /// exactly the ports carried over from the stage before, a simple
    /// pipe's port vectors match its processors one to one, and every
    /// output port id lies inside the arena.
    pub open spec fn shape_ok(&self, carry: Seq<usize>, port_count: nat) -> bool {
        match self {
            Pipe::ResizePipe { inputs_port, outputs_port, .. } => {
                &&& inputs_port@ == carry
                &&& forall|j: int|
                    0 <= j < outputs_port@.len() ==> (#[trigger] outputs_port@[j] as nat)
                        < port_count
            },
            Pipe::SimplePipe { processors, inputs_port, outputs_port } => {
                &&& inputs_port@ == carry
                &&& (inputs_port@.len() == 0 || inputs_port@.len() == processors@.len())
                &&& (outputs_port@.len() == 0 || outputs_port@.len() == processors@.len())
                &&& forall|j: int|
                    0 <= j < outputs_port@.len() ==> (#[trigger] outputs_port@[j] as nat)
                        < port_count
            },
        }
    }

    /// Whether every processor of the pipe carries an output port.
    pub open spec fn fully_out(&self) -> bool {
        match self {
            Pipe::ResizePipe { outputs_port, .. } => outputs_port@.len() >= 1,
            Pipe::SimplePipe { processors, outputs_port, .. } => outputs_port@.len()
                == processors@.len(),
        }
    }
}

/// Whether the whole pipe sequence lowers cleanly from the given
/// carry stack, ending with nothing left over.
pub open spec fn pipes_shape_ok<P>(pipes: Seq<Pipe<P>>, carry: Seq<usize>, port_count: nat) -> bool
    decreases pipes.len(),
{
    if pipes.len() == 0 {
        carry.len() == 0
    } else {
        &&& pipes[0].shape_ok(carry, port_count)
        &&& pipes_shape_ok(pipes.drop_first(), pipes[0].spec_outputs(), port_count)
    }
}

/// The node indices that lowering one pipe leaves on the carry stack,
/// when its nodes start at `base`.
pub open spec fn pipe_stack<P>(p: Pipe<P>, base: nat) -> Seq<usize> {
    match p {
        Pipe::ResizePipe { outputs_port, .. } => Seq::new(
            outputs_port@.len(),
            |j: int| base as usize,
        ),
        Pipe::SimplePipe { processors, outputs_port, .. } => {
            if outputs_port@.len() == 0 {
                Seq::empty()
            } else {
                Seq::new(processors@.len(), |j: int| (base + j) as usize)
            }
        },
    }
}

/// The carry stack after lowering the whole pipe sequence.
pub open spec fn pipes_stack<P>(pipes: Seq<Pipe<P>>) -> Seq<usize>
    decreases pipes.len(),
{
    if pipes.len() == 0 {
        Seq::empty()
    } else {
        pipe_stack(pipes.last(), pipes_processor_count(pipes.drop_last()))
    }
}

/// The edges that lowering one pipe inserts, given its node base and
/// the carry stack it consumes.
pub open spec fn pipe_edges<P>(p: Pipe<P>, base: nat, carry: Seq<usize>) -> Seq<(usize, usize)> {
    match p {
        Pipe::ResizePipe { inputs_port, .. } => Seq::new(
            inputs_port@.len(),
            |j: int| (carry[j], base as usize),
        ),
        Pipe::SimplePipe { inputs_port, .. } => Seq::new(
            inputs_port@.len(),
            |j: int| (carry[j], (base + j) as usize),
        ),
    }
}

/// Every edge that lowering the pipe sequence inserts, in order.
pub open spec fn pipes_edges<P>(pipes: Seq<Pipe<P>>) -> Seq<(usize, usize)>
    decreases pipes.len(),
{
    if pipes.len() == 0 {
        Seq::empty()
    } else {
        pipes_edges(pipes.drop_last()) + pipe_edges(
            pipes.last(),
            pipes_processor_count(pipes.drop_last()),
            pipes_stack(pipes.drop_last()),
        )
    }
}

/// The lowered dataflow graph: a stable topology, the node arena, and
/// the shared port arena.
pub struct ExecutingGraph<P> {
    graph: StableGraph<(), (), Directed, u32>,
    pub nodes: Vec<Node<P>>,
    pub ports: PortArena,
}

impl<P> ExecutingGraph<P> {
    /// The topology's edges, as pairs of node indices.
    pub closed spec fn spec_edges(&self) -> Seq<(usize, usize)> {
        pg_edges(&self.graph)
    }

    /// The topology holds exactly the arena's nodes and was built
    /// without removals.
    pub closed spec fn topo_ok(&self) -> bool {
        pg_compact(&self.graph) && pg_node_total(&self.graph) == self.nodes@.len()
    }

    pub closed spec fn node_count(&self) -> nat {
        self.nodes@.len()
    }

    /// The port arena, for contracts.
    pub closed spec fn spec_ports(&self) -> PortArena {
        self.ports
    }

    /// The node arena, for contracts.
    pub closed spec fn spec_nodes(&self) -> Seq<Node<P>> {
        self.nodes@
    }

    /// The graph's well-formedness: topology and arenas agree, and
    /// every edge connects two existing nodes.
    pub closed spec fn wf(&self) -> bool {
        &&& self.topo_ok()
        &&& self.nodes@.len() == self.ports.node_count()
        &&& forall|e: int|
            0 <= e < self.spec_edges().len() ==> ((#[trigger] self.spec_edges()[e]).0 as nat)
                < self.node_count() && (self.spec_edges()[e].1 as nat) < self.node_count()
    }
}

/// Decide equality of two port-id vectors.
fn vec_usize_eq(a: &Vec<usize>, b: &Vec<usize>) -> (r: bool)
    ensures
        r == (a@ == b@),
{
    if a.len() != b.len() {
        proof {
            assert(a@.len() != b@.len());
        }
        return false;
    }
    let mut j: usize = 0;
    while j < a.len()
        invariant
            0 <= j <= a@.len(),
            a@.len() == b@.len(),
            forall|t: int| 0 <= t < j ==> a@[t] == b@[t],
        decreases a@.len() - j,
    {
        if a[j] != b[j] {
            return false;
        }
        j += 1;
    }
    proof {
        assert(a@ =~= b@);
    }
    true
}

/// Decide that every port id in the vector lies inside the arena.
fn ports_in_range(v: &Vec<usize>, port_count: usize) -> (r: bool)
    ensures
        r == (forall|j: int| 0 <= j < v@.len() ==> (#[trigger] v@[j] as nat) < port_count),
{
    let mut j: usize = 0;
    while j < v.len()
        invariant
            0 <= j <= v@.len(),
            forall|t: int| 0 <= t < j ==> (#[trigger] v@[t] as nat) < port_count,
        decreases v@.len() - j,
    {
        if v[j] >= port_count {
            return false;
        }
        j += 1;
    }
    true
}

/// The channel ports the pipes consume, in edge order: edge `e` was
/// wired through port `pipes_edge_ports(pipes)[e]`.
pub open spec fn pipes_edge_ports<P>(pipes: Seq<Pipe<P>>) -> Seq<usize>
    decreases pipes.len(),
{
    if pipes.len() == 0 {
        Seq::empty()
    } else {
        pipes_edge_ports(pipes.drop_last()) + pipes.last().spec_inputs()
    }
}

/// Whether both write-barriers of an edge stand installed on its
/// channel port: the consumer end records into the target's update
/// list, the producer end into the source's.
pub open spec fn edge_triggers_installed(
    arena: PortArena,
    port: usize,
    ends: (usize, usize),
    e: int,
) -> bool {
    &&& (port as nat) < arena.port_count()
    &&& arena.port_at(port as int).trigger_target == Option::Some(
        PortTrigger { owner_node: ends.1, edge: e as usize },
    )
    &&& arena.port_at(port as int).trigger_source == Option::Some(
        PortTrigger { owner_node: ends.0, edge: e as usize },
    )
}

/// Whether a pipeline lowers at all: its pipes fit together from an
/// empty carry stack, and its node and edge totals stay below the
/// topology's index bound.
pub open spec fn pipeline_ok<P>(pipes: Seq<Pipe<P>>, port_count: nat) -> bool {
    &&& pipes_shape_ok(pipes, Seq::empty(), port_count)
    &&& pipes_processor_count(pipes) < u32::MAX
    &&& pipes_input_count(pipes) < u32::MAX
}

/// One lowering step adds the pipe's processors to the node total.
proof fn lemma_proc_count_step<P>(s: Seq<Pipe<P>>, i: int)
    requires
        0 <= i < s.len(),
    ensures
        pipes_processor_count(s.take(i + 1)) == pipes_processor_count(s.take(i))
            + s[i].spec_processor_count(),
        pipes_input_count(s.take(i + 1)) == pipes_input_count(s.take(i)) + s[i].spec_input_count(),
        pipes_stack(s.take(i + 1)) == pipe_stack(s[i], pipes_processor_count(s.take(i))),
        pipes_edges(s.take(i + 1)) == pipes_edges(s.take(i)) + pipe_edges(
            s[i],
            pipes_processor_count(s.take(i)),
            pipes_stack(s.take(i)),
        ),
        pipes_edge_ports(s.take(i + 1)) == pipes_edge_ports(s.take(i)) + s[i].spec_inputs(),
{
    assert(s.take(i + 1).drop_last() =~= s.take(i));
    assert(s.take(i + 1).last() == s[i]);
}

/// Totals only grow as pipes are processed.
proof fn lemma_counts_take_le<P>(s: Seq<Pipe<P>>, i: int)
    requires
        0 <= i <= s.len(),
    ensures
        pipes_processor_count(s.take(i)) <= pipes_processor_count(s),
        pipes_input_count(s.take(i)) <= pipes_input_count(s),
    decreases s.len() - i,
{
    if i == s.len() {
        assert(s.take(i) =~= s);
    } else {
        lemma_proc_count_step(s, i);
        lemma_counts_take_le(s, i + 1);
    }
}

/// As many edges are inserted as input ports are consumed, and one
/// channel port is recorded for each.
pub proof fn lemma_pipes_edges_len<P>(s: Seq<Pipe<P>>)
    ensures
        pipes_edges(s).len() == pipes_input_count(s),
        pipes_edge_ports(s).len() == pipes_input_count(s),
    decreases s.len(),
{
    if s.len() > 0 {
        lemma_pipes_edges_len(s.drop_last());
        match s.last() {
            Pipe::ResizePipe { .. } => {},
            Pipe::SimplePipe { processors, inputs_port, .. } => {},
        }
    }
}

/// Every channel port a prefix records stands unchanged in the whole
/// list.
proof fn lemma_edge_ports_prefix<P>(pipes: Seq<Pipe<P>>, m: int)
    requires
        0 <= m <= pipes.len(),
    ensures
        pipes_edge_ports(pipes.take(m)).len() <= pipes_edge_ports(pipes).len(),
        forall|t: int|
            0 <= t < pipes_edge_ports(pipes.take(m)).len() ==> #[trigger] pipes_edge_ports(
                pipes,
            )[t] == pipes_edge_ports(pipes.take(m))[t],
    decreases pipes.len() - m,
{
    if m == pipes.len() {
        assert(pipes.take(m) =~= pipes);
    } else {
        lemma_edge_ports_prefix(pipes, m + 1);
        lemma_proc_count_step(pipes, m);
    }
}

impl<P> ExecutingGraph<P> {
    /// Lower a pipeline into the executor graph: every processor
    /// becomes a node, every consumed input port becomes an edge with
    /// both its write-barriers installed, and the carry stack must be
    /// used up exactly. A pipeline that does not fit together is
    /// reported as an internal fault.
    #[verifier::loop_isolation(false)]
    #[verifier::rlimit(80)]
    pub fn create(pipeline: Pipeline<P>) -> (r: Result<ExecutingGraph<P>, EngineError>)
        ensures
            match r {
                Ok(g) => {
                    &&& pipeline_ok(pipeline.pipes@, pipeline.ports.port_count())
                    &&& g.wf()
                    &&& g.node_count() == pipes_processor_count(pipeline.pipes@)
                    &&& g.spec_edges() == pipes_edges(pipeline.pipes@)
                    &&& g.spec_ports().port_count() == pipeline.ports.port_count()
                    &&& forall|n: int|
                        0 <= n < g.node_count() ==> g.spec_nodes()[n].state == NodeState::Idle
                    // Edge `e` was wired through channel port
                    // `pipes_edge_ports(..)[e]`; when the pipeline
                    // consumes no port twice, both of that port's
                    // write-barriers stand installed for `e`.
                    &&& pipes_edge_ports(pipeline.pipes@).len() == g.spec_edges().len()
                    &&& (pipes_edge_ports(pipeline.pipes@).no_duplicates() ==> forall|e: int|
                        0 <= e < g.spec_edges().len() ==> #[trigger] edge_triggers_installed(
                            g.spec_ports(),
                            pipes_edge_ports(pipeline.pipes@)[e],
                            g.spec_edges()[e],
                            e,
                        ))
                },
                Err(e) => {
                    &&& e.kind == ErrorKind::Internal
                    &&& !pipeline_ok(pipeline.pipes@, pipeline.ports.port_count())
                },
            },
    {
        let ghost orig: Seq<Pipe<P>> = pipeline.pipes@;
        let ghost pc: nat = pipeline.ports.port_count();
        let Pipeline { pipes, ports } = pipeline;
        let mut pipes = pipes;
        let mut ports = ports;
        ports.reset_node_lists();
        let port_count = ports.ports.len();
        // First pass: the totals must stay below the index bound.
        let mut total_nodes: u64 = 0;
        let mut total_edges: u64 = 0;
        let mut ci: usize = 0;
        while ci < pipes.len()
            invariant
                0 <= ci <= pipes@.len(),
                pipes@ == orig,
                total_nodes == pipes_processor_count(orig.take(ci as int)),
                total_edges == pipes_input_count(orig.take(ci as int)),
                total_nodes < u32::MAX,
                total_edges < u32::MAX,
            decreases pipes@.len() - ci,
        {
            let (pn, pe): (usize, usize) = match &pipes[ci] {
                Pipe::ResizePipe { inputs_port, .. } => (1, inputs_port.len()),
                Pipe::SimplePipe { processors, inputs_port, .. } => (
                    processors.len(),
                    inputs_port.len(),
                ),
            };
            proof {
                lemma_proc_count_step(orig, ci as int);
            }
            if pn as u64 >= u32::MAX as u64 - total_nodes || pe as u64 >= u32::MAX as u64
                - total_edges {
                proof {
                    lemma_counts_take_le(orig, ci as int + 1);
                    assert(pn as nat == orig[ci as int].spec_processor_count());
                    assert(pe as nat == orig[ci as int].spec_input_count());
                    assert(pipes_processor_count(orig) >= u32::MAX || pipes_input_count(orig)
                        >= u32::MAX);
                }
                return Err(EngineError::internal(String::from_str("pipeline too large")));
            }
            total_nodes = total_nodes + pn as u64;
            total_edges = total_edges + pe as u64;
            ci += 1;
        }
        proof {
            assert(orig.take(orig.len() as int) =~= orig);
        }
        // Second pass: lower pipe by pipe.
        let mut graph = pg_new();
        let mut nodes: Vec<Node<P>> = Vec::new();
        let mut node_stack: Vec<usize> = Vec::new();
        let mut edge_stack: Vec<usize> = Vec::new();
        let ghost mut i: int = 0;
        proof {
            assert(orig.take(0) =~= Seq::<Pipe<P>>::empty());
        }
        while pipes.len() > 0
            invariant
                0 <= i <= orig.len(),
                pipes@ =~= orig.skip(i),
                pg_compact(&graph),
                pg_node_total(&graph) == nodes@.len(),
                nodes@.len() == ports.node_count(),
                nodes@.len() == pipes_processor_count(orig.take(i)),
                pg_edges(&graph) == pipes_edges(orig.take(i)),
                pipes_input_count(orig.take(i)) <= total_edges < u32::MAX,
                pipes_processor_count(orig.take(i)) <= total_nodes < u32::MAX,
                total_nodes == pipes_processor_count(orig),
                total_edges == pipes_input_count(orig),
                ports.port_count() == pc,
                port_count == pc,
                node_stack@.len() == edge_stack@.len(),
                forall|t: int|
                    0 <= t < edge_stack@.len() ==> (#[trigger] edge_stack@[t] as nat) < pc,
                node_stack@ == pipes_stack(orig.take(i)),
                forall|t: int| 0 <= t < node_stack@.len() ==> (#[trigger] node_stack@[t] as nat) < nodes@.len(),
                forall|e: int|
                    0 <= e < pg_edges(&graph).len() ==> ((#[trigger] pg_edges(&graph)[e]).0 as nat)
                        < nodes@.len() && (pg_edges(&graph)[e].1 as nat) < nodes@.len(),
                forall|n: int| 0 <= n < nodes@.len() ==> (#[trigger] nodes@[n]).state == NodeState::Idle,
                pipes_shape_ok(orig, Seq::empty(), pc) == pipes_shape_ok(
                    orig.skip(i),
                    edge_stack@,
                    pc,
                ),
                pipes_edge_ports(orig.take(i)).len() == pg_edges(&graph).len(),
                pipes_edge_ports(orig).no_duplicates() ==> forall|t: int|
                    0 <= t < pg_edges(&graph).len() ==> #[trigger] edge_triggers_installed(
                        ports,
                        pipes_edge_ports(orig.take(i))[t],
                        pg_edges(&graph)[t],
                        t,
                    ),
            decreases pipes@.len(),
        {
            let pipe = pipes.remove(0);
            let ghost cur: Pipe<P> = orig[i];
            proof {
                assert(orig.skip(i)[0] == orig[i]);
                assert(pipes@ =~= orig.skip(i + 1));
                lemma_proc_count_step(orig, i);
                lemma_counts_take_le(orig, i + 1);
                lemma_pipes_edges_len(orig.take(i));
            }
            let ghost base: nat = nodes@.len() as nat;
            match pipe {
                Pipe::ResizePipe { processor, inputs_port, outputs_port } => {
                    if node_stack.len() != inputs_port.len() || !vec_usize_eq(
                        &inputs_port,
                        &edge_stack,
                    ) || !ports_in_range(&outputs_port, port_count) {
                        proof {
                            assert(!cur.shape_ok(edge_stack@, pc));
                            assert(!pipes_shape_ok(orig.skip(i), edge_stack@, pc));
                        }
                        return Err(EngineError::internal(String::from_str("It's a bug.")));
                    }
                    let target = pg_add_node(&mut graph);
                    let ghost ports_pre = ports;
                    let _list = ports.add_node_list();
                    proof {
                        assert(ports.ports == ports_pre.ports);
                        if pipes_edge_ports(orig).no_duplicates() {
                            assert(inputs_port@.take(0) =~= Seq::<usize>::empty());
                            assert forall|t: int|
                                0 <= t < pg_edges(&graph).len() implies #[trigger] edge_triggers_installed(
                                ports,
                                (pipes_edge_ports(orig.take(i)) + inputs_port@.take(0))[t],
                                pg_edges(&graph)[t],
                                t,
                            ) by {
                                assert((pipes_edge_ports(orig.take(i)) + inputs_port@.take(
                                    0,
                                ))[t] == pipes_edge_ports(orig.take(i))[t]);
                                assert(edge_triggers_installed(
                                    ports_pre,
                                    pipes_edge_ports(orig.take(i))[t],
                                    pg_edges(&graph)[t],
                                    t,
                                ));
                                let q = pipes_edge_ports(orig.take(i))[t];
                                assert(ports.port_at(q as int) == ports_pre.port_at(q as int));
                            }
                        }
                    }
                    let node_inputs = clone_usize_vec(&inputs_port);
                    let node_outputs = clone_usize_vec(&outputs_port);
                    nodes.push(Node::create(processor, node_inputs, node_outputs));
                    let ghost stack0 = node_stack@;
                    let mut idx: usize = 0;
                    while idx < inputs_port.len()
                        invariant
                            0 <= idx <= inputs_port@.len(),
                            pg_compact(&graph),
                            pg_node_total(&graph) == nodes@.len(),
                            nodes@.len() == ports.node_count(),
                            ports.port_count() == pc,
                            (target as nat) == base,
                            nodes@.len() == base + 1,
                            node_stack@ == stack0,
                            node_stack@.len() == inputs_port@.len(),
                            forall|t: int|
                                0 <= t < node_stack@.len() ==> (#[trigger] node_stack@[t] as nat)
                                    < base,
                            forall|t: int|
                                0 <= t < inputs_port@.len() ==> (#[trigger] inputs_port@[t] as nat)
                                    < pc,
                            pipes_edges(orig.take(i)).len() + inputs_port@.len() <= total_edges
                                < u32::MAX,
                            pg_edges(&graph) == pipes_edges(orig.take(i)) + Seq::new(
                                idx as nat,
                                |j: int| (stack0[j], target),
                            ),
                            cur.spec_inputs() == inputs_port@,
                            pipes_edge_ports(orig.take(i)).len() == pipes_edges(
                                orig.take(i),
                            ).len(),
                            pipes_edge_ports(orig).no_duplicates() ==> forall|t: int|
                                0 <= t < pg_edges(&graph).len()
                                    ==> #[trigger] edge_triggers_installed(
                                    ports,
                                    (pipes_edge_ports(orig.take(i)) + inputs_port@.take(
                                        idx as int,
                                    ))[t],
                                    pg_edges(&graph)[t],
                                    t,
                                ),
                            forall|e: int|
                                0 <= e < pg_edges(&graph).len() ==> ((#[trigger] pg_edges(
                                    &graph,
                                )[e]).0 as nat) < nodes@.len() && (pg_edges(&graph)[e].1 as nat)
                                    < nodes@.len(),
                        decreases inputs_port@.len() - idx,
                    {
                        let source = node_stack[idx];
                        proof {
                            lemma_pipes_edges_len(orig.take(i));
                        }
                        let ghost ports0 = ports;
                        let e = pg_add_edge(&mut graph, source, target);
                        ports.set_target_trigger(
                            inputs_port[idx],
                            PortTrigger { owner_node: target, edge: e },
                        );
                        ports.set_source_trigger(
                            inputs_port[idx],
                            PortTrigger { owner_node: source, edge: e },
                        );
                        proof {
                            assert(pg_edges(&graph) =~= pipes_edges(orig.take(i)) + Seq::new(
                                (idx + 1) as nat,
                                |j: int| (stack0[j], target),
                            ));
                            if pipes_edge_ports(orig).no_duplicates() {
                                lemma_edge_ports_prefix(orig, i + 1);
                                let ec = pipes_edges(orig.take(i)).len() as int;
                                let cons1 = pipes_edge_ports(orig.take(i)) + inputs_port@.take(
                                    idx as int + 1,
                                );
                                assert(pipes_edge_ports(orig.take(i + 1)) == pipes_edge_ports(
                                    orig.take(i),
                                ) + inputs_port@);
                                assert forall|t: int| 0 <= t <= ec + idx implies #[trigger] cons1[t]
                                    == pipes_edge_ports(orig)[t] by {
                                    assert(cons1[t] == pipes_edge_ports(orig.take(i + 1))[t]);
                                }
                                assert forall|t: int|
                                    0 <= t < ec + idx + 1 implies #[trigger] edge_triggers_installed(
                                    ports,
                                    cons1[t],
                                    pg_edges(&graph)[t],
                                    t,
                                ) by {
                                    if t < ec + idx {
                                        assert(cons1[t] == (pipes_edge_ports(orig.take(i))
                                            + inputs_port@.take(idx as int))[t]);
                                        assert(edge_triggers_installed(
                                            ports0,
                                            cons1[t],
                                            pg_edges(&graph)[t],
                                            t,
                                        ));
                                        assert(cons1[t] != inputs_port@[idx as int]) by {
                                            assert(inputs_port@[idx as int] == cons1[ec + idx]);
                                            assert(cons1[ec + idx] == pipes_edge_ports(
                                                orig,
                                            )[ec + idx]);
                                        }
                                        assert(ports.port_at(cons1[t] as int) == ports0.port_at(
                                            cons1[t] as int,
                                        ));
                                    } else {
                                        assert(cons1[t] == inputs_port@[idx as int]);
                                    }
                                }
                            }
                        }
                        idx += 1;
                    }
                    node_stack = Vec::new();
                    edge_stack = Vec::new();
                    let mut oi: usize = 0;
                    while oi < outputs_port.len()
                        invariant
                            0 <= oi <= outputs_port@.len(),
                            node_stack@ == Seq::new(oi as nat, |j: int| target),
                            edge_stack@ == outputs_port@.take(oi as int),
                        decreases outputs_port@.len() - oi,
                    {
                        node_stack.push(target);
                        edge_stack.push(outputs_port[oi]);
                        proof {
                            assert(node_stack@ =~= Seq::new((oi + 1) as nat, |j: int| target));
                            assert(edge_stack@ =~= outputs_port@.take(oi as int + 1));
                        }
                        oi += 1;
                    }
                    proof {
                        assert(edge_stack@ =~= outputs_port@);
                        assert(pg_edges(&graph) =~= pipes_edges(orig.take(i + 1)));
                        assert(node_stack@ =~= pipes_stack(orig.take(i + 1)));
                        assert(orig.skip(i).drop_first() =~= orig.skip(i + 1));
                        assert(cur.shape_ok(inputs_port@, pc));
                        assert(pipes_shape_ok(orig.skip(i), inputs_port@, pc)
                            == pipes_shape_ok(orig.skip(i + 1), outputs_port@, pc));
                        lemma_pipes_edges_len(orig.take(i + 1));
                        assert(inputs_port@.take(inputs_port@.len() as int) =~= inputs_port@);
                        assert(pipes_edge_ports(orig.take(i + 1)) =~= pipes_edge_ports(
                            orig.take(i),
                        ) + inputs_port@.take(inputs_port@.len() as int));
                    }
                }
                Pipe::SimplePipe { processors, inputs_port, outputs_port } => {
                    let has_inputs = inputs_port.len() > 0;
                    let has_outputs = outputs_port.len() > 0;
                    if node_stack.len() != inputs_port.len() || (has_inputs && inputs_port.len()
                        != processors.len()) || (has_outputs && outputs_port.len()
                        != processors.len()) || !vec_usize_eq(&inputs_port, &edge_stack)
                        || !ports_in_range(&outputs_port, port_count) {
                        proof {
                            assert(!cur.shape_ok(edge_stack@, pc));
                            assert(!pipes_shape_ok(orig.skip(i), edge_stack@, pc));
                        }
                        return Err(EngineError::internal(String::from_str("It's a bug.")));
                    }
                    let ghost stack0 = node_stack@;
                    let ghost procseq = processors@;
                    let mut procs = processors;
                    let mut new_node_stack: Vec<usize> = Vec::new();
                    let mut new_edge_stack: Vec<usize> = Vec::new();
                    let mut idx: usize = 0;
                    while procs.len() > 0
                        invariant
                            0 <= idx <= procseq.len(),
                            procs@.len() == procseq.len() - idx,
                            pg_compact(&graph),
                            pg_node_total(&graph) == nodes@.len(),
                            nodes@.len() == ports.node_count(),
                            ports.port_count() == pc,
                            nodes@.len() == base + idx,
                            base + procseq.len() <= total_nodes < u32::MAX,
                            node_stack@ == stack0,
                            has_inputs <==> inputs_port@.len() > 0,
                            has_outputs <==> outputs_port@.len() > 0,
                            node_stack@.len() == inputs_port@.len(),
                            has_inputs ==> inputs_port@.len() == procseq.len(),
                            has_outputs ==> outputs_port@.len() == procseq.len(),
                            forall|t: int|
                                0 <= t < node_stack@.len() ==> (#[trigger] node_stack@[t] as nat)
                                    < base,
                            forall|t: int|
                                0 <= t < inputs_port@.len() ==> (#[trigger] inputs_port@[t] as nat)
                                    < pc,
                            pipes_edges(orig.take(i)).len() + inputs_port@.len() <= total_edges
                                < u32::MAX,
                            pg_edges(&graph) == pipes_edges(orig.take(i)) + (if has_inputs {
                                Seq::new(idx as nat, |j: int| (stack0[j], (base + j) as usize))
                            } else {
                                Seq::<(usize, usize)>::empty()
                            }),
                            cur.spec_inputs() == inputs_port@,
                            pipes_edge_ports(orig.take(i)).len() == pipes_edges(
                                orig.take(i),
                            ).len(),
                            (pipes_edge_ports(orig).no_duplicates() && has_inputs)
                                ==> forall|t: int|
                                0 <= t < pg_edges(&graph).len()
                                    ==> #[trigger] edge_triggers_installed(
                                    ports,
                                    (pipes_edge_ports(orig.take(i)) + inputs_port@.take(
                                        idx as int,
                                    ))[t],
                                    pg_edges(&graph)[t],
                                    t,
                                ),
                            (pipes_edge_ports(orig).no_duplicates() && !has_inputs)
                                ==> forall|t: int|
                                0 <= t < pg_edges(&graph).len()
                                    ==> #[trigger] edge_triggers_installed(
                                    ports,
                                    pipes_edge_ports(orig.take(i))[t],
                                    pg_edges(&graph)[t],
                                    t,
                                ),
                            forall|e: int|
                                0 <= e < pg_edges(&graph).len() ==> ((#[trigger] pg_edges(
                                    &graph,
                                )[e]).0 as nat) < nodes@.len() && (pg_edges(&graph)[e].1 as nat)
                                    < nodes@.len(),
                            forall|n: int|
                                0 <= n < nodes@.len() ==> (#[trigger] nodes@[n]).state
                                    == NodeState::Idle,
                            new_node_stack@ == (if has_outputs {
                                Seq::new(idx as nat, |j: int| (base + j) as usize)
                            } else {
                                Seq::<usize>::empty()
                            }),
                            new_edge_stack@ == (if has_outputs {
                                outputs_port@.take(idx as int)
                            } else {
                                Seq::<usize>::empty()
                            }),
                        decreases procs@.len(),
                    {
                        let p = procs.remove(0);
                        let target = pg_add_node(&mut graph);
                        let ghost ports_pre = ports;
                        let _list = ports.add_node_list();
                        proof {
                            assert(ports.ports == ports_pre.ports);
                            if pipes_edge_ports(orig).no_duplicates() && !has_inputs {
                                assert forall|t: int|
                                    0 <= t < pg_edges(&graph).len() implies #[trigger] edge_triggers_installed(
                                    ports,
                                    pipes_edge_ports(orig.take(i))[t],
                                    pg_edges(&graph)[t],
                                    t,
                                ) by {
                                    let q = pipes_edge_ports(orig.take(i))[t];
                                    assert(edge_triggers_installed(
                                        ports_pre,
                                        q,
                                        pg_edges(&graph)[t],
                                        t,
                                    ));
                                    assert(ports.port_at(q as int) == ports_pre.port_at(q as int));
                                }
                            }
                            if pipes_edge_ports(orig).no_duplicates() && has_inputs {
                                assert forall|t: int|
                                    0 <= t < pg_edges(&graph).len() implies #[trigger] edge_triggers_installed(
                                    ports,
                                    (pipes_edge_ports(orig.take(i)) + inputs_port@.take(
                                        idx as int,
                                    ))[t],
                                    pg_edges(&graph)[t],
                                    t,
                                ) by {
                                    let q = (pipes_edge_ports(orig.take(i)) + inputs_port@.take(
                                        idx as int,
                                    ))[t];
                                    assert(edge_triggers_installed(
                                        ports_pre,
                                        q,
                                        pg_edges(&graph)[t],
                                        t,
                                    ));
                                    assert(ports.port_at(q as int) == ports_pre.port_at(q as int));
                                }
                            }
                        }
                        let mut p_inputs: Vec<usize> = Vec::new();
                        let mut p_outputs: Vec<usize> = Vec::new();
                        if has_inputs {
                            p_inputs.push(inputs_port[idx]);
                        }
                        if has_outputs {
                            p_outputs.push(outputs_port[idx]);
                        }
                        nodes.push(Node::create(p, p_inputs, p_outputs));
                        if has_inputs {
                            let source = node_stack[idx];
                            proof {
                                lemma_pipes_edges_len(orig.take(i));
                            }
                            let ghost ports0 = ports;
                            let e = pg_add_edge(&mut graph, source, target);
                            ports.set_target_trigger(
                                inputs_port[idx],
                                PortTrigger { owner_node: target, edge: e },
                            );
                            ports.set_source_trigger(
                                inputs_port[idx],
                                PortTrigger { owner_node: source, edge: e },
                            );
                            proof {
                                assert(pg_edges(&graph) =~= pipes_edges(orig.take(i)) + Seq::new(
                                    (idx + 1) as nat,
                                    |j: int| (stack0[j], (base + j) as usize),
                                ));
                                if pipes_edge_ports(orig).no_duplicates() {
                                    lemma_edge_ports_prefix(orig, i + 1);
                                    let ec = pipes_edges(orig.take(i)).len() as int;
                                    let cons1 = pipes_edge_ports(orig.take(i))
                                        + inputs_port@.take(idx as int + 1);
                                    assert(pipes_edge_ports(orig.take(i + 1)) == pipes_edge_ports(
                                        orig.take(i),
                                    ) + inputs_port@);
                                    assert forall|t: int|
                                        0 <= t <= ec + idx implies #[trigger] cons1[t]
                                        == pipes_edge_ports(orig)[t] by {
                                        assert(cons1[t] == pipes_edge_ports(orig.take(i + 1))[t]);
                                    }
                                    assert forall|t: int|
                                        0 <= t < ec + idx + 1 implies #[trigger] edge_triggers_installed(
                                        ports,
                                        cons1[t],
                                        pg_edges(&graph)[t],
                                        t,
                                    ) by {
                                        if t < ec + idx {
                                            assert(cons1[t] == (pipes_edge_ports(orig.take(i))
                                                + inputs_port@.take(idx as int))[t]);
                                            assert(edge_triggers_installed(
                                                ports0,
                                                cons1[t],
                                                pg_edges(&graph)[t],
                                                t,
                                            ));
                                            assert(cons1[t] != inputs_port@[idx as int]) by {
                                                assert(inputs_port@[idx as int] == cons1[ec + idx]);
                                                assert(cons1[ec + idx] == pipes_edge_ports(
                                                    orig,
                                                )[ec + idx]);
                                            }
                                            assert(ports.port_at(cons1[t] as int)
                                                == ports0.port_at(cons1[t] as int));
                                        } else {
                                            assert(cons1[t] == inputs_port@[idx as int]);
                                        }
                                    }
                                }
                            }
                        }
                        if has_outputs {
                            new_node_stack.push(target);
                            new_edge_stack.push(outputs_port[idx]);
                            proof {
                                assert(new_node_stack@ =~= Seq::new(
                                    (idx + 1) as nat,
                                    |j: int| (base + j) as usize,
                                ));
                                assert(new_edge_stack@ =~= outputs_port@.take(idx as int + 1));
                            }
                        }
                        idx += 1;
                    }
                    proof {
                        assert(idx == procseq.len());
                    }
                    node_stack = new_node_stack;
                    edge_stack = new_edge_stack;
                    proof {
                        if has_outputs {
                            assert(edge_stack@ =~= outputs_port@);
                        } else {
                            assert(edge_stack@ =~= outputs_port@);
                        }
                        assert(pg_edges(&graph) =~= pipes_edges(orig.take(i + 1)));
                        assert(node_stack@ =~= pipes_stack(orig.take(i + 1)));
                        assert(orig.skip(i).drop_first() =~= orig.skip(i + 1));
                        assert(cur.shape_ok(inputs_port@, pc));
                        assert(pipes_shape_ok(orig.skip(i), inputs_port@, pc)
                            == pipes_shape_ok(orig.skip(i + 1), outputs_port@, pc));
                        lemma_pipes_edges_len(orig.take(i + 1));
                        if has_inputs {
                            assert(inputs_port@.take(inputs_port@.len() as int)
                                =~= inputs_port@);
                            assert(pipes_edge_ports(orig.take(i + 1)) =~= pipes_edge_ports(
                                orig.take(i),
                            ) + inputs_port@.take(inputs_port@.len() as int));
                        } else {
                            assert(inputs_port@.take(0) =~= inputs_port@);
                            assert(pipes_edge_ports(orig.take(i + 1)) =~= pipes_edge_ports(
                                orig.take(i),
                            ) + inputs_port@.take(0));
                        }
                    }
                }
            }
            proof {
                i = i + 1;
            }
        }
        proof {
            assert(orig.skip(i) =~= Seq::<Pipe<P>>::empty());
            assert(i == orig.len());
            assert(orig.take(i) =~= orig);
        }
        if node_stack.len() != 0 {
            proof {
                assert(edge_stack@.len() != 0);
                assert(!pipes_shape_ok(orig.skip(i), edge_stack@, pc));
            }
            return Err(EngineError::internal(String::from_str("It's a bug.")));
        }
        proof {
            assert(edge_stack@.len() == 0);
            assert(pipes_shape_ok(orig.skip(i), edge_stack@, pc));
            lemma_pipes_edges_len(orig);
        }
        let g = ExecutingGraph { graph, nodes, ports };
        Ok(g)
    }
}

/// The carry that lowering hands pipe `i`: nothing for the first
/// pipe, the previous pipe's outputs after that.
pub open spec fn pipe_carry<P>(pipes: Seq<Pipe<P>>, i: int) -> Seq<usize> {
    if i == 0 {
        Seq::empty()
    } else {
        pipes[i - 1].spec_outputs()
    }
}

/// Whether each pipe fits against the one before it.
pub open spec fn pipes_linked<P>(pipes: Seq<Pipe<P>>, port_count: nat) -> bool {
    forall|i: int| 0 <= i < pipes.len() ==> (#[trigger] pipes[i]).shape_ok(pipe_carry(pipes, i), port_count)
}

/// A well-shaped pipeline is linked pipe by pipe.
pub proof fn lemma_shape_implies_linked<P>(pipes: Seq<Pipe<P>>, port_count: nat)
    requires
        pipes_shape_ok(pipes, Seq::empty(), port_count),
    ensures
        pipes_linked(pipes, port_count),
{
    assert forall|i: int| 0 <= i < pipes.len() implies (#[trigger] pipes[i]).shape_ok(
        pipe_carry(pipes, i),
        port_count,
    ) by {
        lemma_shape_suffix(pipes, i, port_count);
    }
}

/// The suffix from any pipe onward is well shaped against its carry.
proof fn lemma_shape_suffix<P>(pipes: Seq<Pipe<P>>, k: int, port_count: nat)
    requires
        pipes_shape_ok(pipes, Seq::empty(), port_count),
        0 <= k < pipes.len(),
    ensures
        pipes[k].shape_ok(pipe_carry(pipes, k), port_count),
        pipes_shape_ok(pipes.skip(k), pipe_carry(pipes, k), port_count),
    decreases k,
{
    if k == 0 {
        assert(pipes.skip(0) =~= pipes);
        assert(pipes.skip(0)[0] == pipes[0]);
    } else {
        lemma_shape_suffix(pipes, k - 1, port_count);
        assert(pipes.skip(k - 1)[0] == pipes[k - 1]);
        assert(pipes.skip(k - 1).drop_first() =~= pipes.skip(k));
        assert(pipes.skip(k)[0] == pipes[k]);
        assert(pipes.skip(k - 1)[0].spec_outputs() == pipe_carry(pipes, k));
        assert(pipes_shape_ok(pipes.skip(k), pipe_carry(pipes, k), port_count));
        assert(pipes[k].shape_ok(pipe_carry(pipes, k), port_count));
    }
}

/// The carry stack of a prefix holds exactly the last pipe's node
/// range; a pipe whose processors all carry outputs covers the whole
/// range.
proof fn lemma_stack_range<P>(pipes: Seq<Pipe<P>>, port_count: nat)
    requires
        pipes.len() > 0,
        pipes.last().shape_ok(pipe_carry(pipes, pipes.len() - 1), port_count),
        pipes_processor_count(pipes) <= usize::MAX,
    ensures
        pipes_stack(pipes).len() == pipes.last().spec_outputs().len(),
        forall|j: int|
            0 <= j < pipes_stack(pipes).len() ==> pipes_processor_count(pipes.drop_last())
                <= (#[trigger] pipes_stack(pipes)[j] as nat) < pipes_processor_count(pipes),
        pipes.last().fully_out() ==> forall|n: usize|
            pipes_processor_count(pipes.drop_last()) <= (n as nat) < pipes_processor_count(pipes)
                ==> #[trigger] pipes_stack(pipes).contains(n),
{
    let base = pipes_processor_count(pipes.drop_last());
    assert(pipes_processor_count(pipes) == base + pipes.last().spec_processor_count()) by {
        assert(pipes.drop_last() =~= pipes.take(pipes.len() - 1));
        lemma_proc_count_step(pipes, pipes.len() - 1);
        assert(pipes.take(pipes.len() as int) =~= pipes);
    }
    match pipes.last() {
        Pipe::ResizePipe { outputs_port, .. } => {
            if pipes.last().fully_out() {
                assert forall|n: usize| base <= (n as nat) < pipes_processor_count(
                    pipes,
                ) implies #[trigger] pipes_stack(pipes).contains(n) by {
                    assert(pipes_stack(pipes)[0] as nat == base);
                    assert(pipes_stack(pipes)[0] == n);
                }
            }
        },
        Pipe::SimplePipe { processors, outputs_port, .. } => {
            if pipes.last().fully_out() {
                assert forall|n: usize| base <= (n as nat) < pipes_processor_count(
                    pipes,
                ) implies #[trigger] pipes_stack(pipes).contains(n) by {
                    let j = (n as nat) - base;
                    assert(pipes_stack(pipes)[j as int] == n);
                }
            }
        },
    }
}

/// Every edge a prefix inserts stands unchanged in the whole edge
/// list.
proof fn lemma_edges_prefix<P>(pipes: Seq<Pipe<P>>, m: int)
    requires
        0 <= m <= pipes.len(),
    ensures
        pipes_edges(pipes.take(m)).len() <= pipes_edges(pipes).len(),
        forall|e: int|
            0 <= e < pipes_edges(pipes.take(m)).len() ==> #[trigger] pipes_edges(pipes)[e]
                == pipes_edges(pipes.take(m))[e],
    decreases pipes.len() - m,
{
    if m == pipes.len() {
        assert(pipes.take(m) =~= pipes);
    } else {
        lemma_edges_prefix(pipes, m + 1);
        lemma_proc_count_step(pipes, m);
    }
}

/// Law: every edge's source lies before the final pipe's nodes — no
/// node of the last stage feeds anything.
pub proof fn lemma_sources_bounded<P>(pipes: Seq<Pipe<P>>, port_count: nat)
    requires
        pipes_linked(pipes, port_count),
        pipes_processor_count(pipes) <= usize::MAX,
    ensures
        forall|e: int|
            0 <= e < pipes_edges(pipes).len() ==> ((#[trigger] pipes_edges(pipes)[e]).0 as nat)
                < pipes_processor_count(pipes.drop_last()),
    decreases pipes.len(),
{
    if pipes.len() == 0 {
    } else {
        let dl = pipes.drop_last();
        assert(pipes_processor_count(pipes) == pipes_processor_count(dl)
            + pipes.last().spec_processor_count()) by {
            assert(dl =~= pipes.take(pipes.len() - 1));
            lemma_proc_count_step(pipes, pipes.len() - 1);
            assert(pipes.take(pipes.len() as int) =~= pipes);
        }
        assert(pipes_linked(dl, port_count)) by {
            assert forall|i: int| 0 <= i < dl.len() implies (#[trigger] dl[i]).shape_ok(
                pipe_carry(dl, i),
                port_count,
            ) by {
                assert(dl[i] == pipes[i]);
                if i > 0 {
                    assert(dl[i - 1] == pipes[i - 1]);
                }
                assert(pipes[i].shape_ok(pipe_carry(pipes, i), port_count));
            }
        }
        lemma_sources_bounded(dl, port_count);
        assert forall|e: int|
            0 <= e < pipes_edges(pipes).len() implies ((#[trigger] pipes_edges(pipes)[e]).0 as nat)
            < pipes_processor_count(pipes.drop_last()) by {
            let inner = pipes_edges(dl);
            if e < inner.len() {
                assert(pipes_edges(pipes)[e] == inner[e]);
                assert((inner[e].0 as nat) < pipes_processor_count(dl.drop_last()));
                assert(dl.len() > 0);
                lemma_count_drop_last_le(pipes);
            } else {
                let last_edges = pipe_edges(
                    pipes.last(),
                    pipes_processor_count(dl),
                    pipes_stack(dl),
                );
                assert(pipes_edges(pipes)[e] == last_edges[e - inner.len()]);
                let j = e - inner.len();
                assert(pipes.last().shape_ok(pipe_carry(pipes, pipes.len() - 1), port_count));
                if dl.len() == 0 {
                    assert(pipe_carry(pipes, pipes.len() - 1) =~= Seq::<usize>::empty());
                    assert(pipes.last().spec_inputs().len() == 0);
                    assert(false);
                } else {
                    assert(pipe_carry(pipes, pipes.len() - 1) == dl.last().spec_outputs()) by {
                        assert(pipes[pipes.len() - 2] == dl.last());
                    }
                    assert(dl.last().shape_ok(pipe_carry(dl, dl.len() - 1), port_count)) by {
                        assert(dl[dl.len() - 1] == dl.last());
                    }
                    lemma_stack_range(dl, port_count);
                    assert(pipes_stack(dl).len() == dl.last().spec_outputs().len());
                    assert(pipes.last().spec_inputs().len() == pipes_stack(dl).len());
                    assert(0 <= j < pipes.last().spec_inputs().len());
                    assert(last_edges[j].0 == pipes_stack(dl)[j]);
                    assert((pipes_stack(dl)[j] as nat) < pipes_processor_count(dl));
                }
            }
        }
    }
}

/// A prefix never counts more processors than the whole.
proof fn lemma_count_drop_last_le<P>(pipes: Seq<Pipe<P>>)
    requires
        pipes.len() > 0,
        pipes.drop_last().len() > 0,
    ensures
        pipes_processor_count(pipes.drop_last().drop_last()) <= pipes_processor_count(
            pipes.drop_last(),
        ),
{
    let dl = pipes.drop_last();
    assert(pipes_processor_count(dl) == pipes_processor_count(dl.drop_last())
        + dl.last().spec_processor_count());
}

/// Law: every edge runs from an earlier pipe to a later one — its
/// source node index lies strictly below its target's — so index
/// order is a topological order and the lowered graph is acyclic.
pub proof fn lemma_edges_ascend<P>(pipes: Seq<Pipe<P>>, port_count: nat)
    requires
        pipes_linked(pipes, port_count),
        pipes_processor_count(pipes) <= usize::MAX,
    ensures
        forall|e: int|
            0 <= e < pipes_edges(pipes).len() ==> (#[trigger] pipes_edges(pipes)[e]).0
                < pipes_edges(pipes)[e].1,
    decreases pipes.len(),
{
    if pipes.len() == 0 {
    } else {
        let dl = pipes.drop_last();
        assert(pipes_processor_count(pipes) == pipes_processor_count(dl)
            + pipes.last().spec_processor_count()) by {
            assert(dl =~= pipes.take(pipes.len() - 1));
            lemma_proc_count_step(pipes, pipes.len() - 1);
            assert(pipes.take(pipes.len() as int) =~= pipes);
        }
        assert(pipes_linked(dl, port_count)) by {
            assert forall|i: int| 0 <= i < dl.len() implies (#[trigger] dl[i]).shape_ok(
                pipe_carry(dl, i),
                port_count,
            ) by {
                assert(dl[i] == pipes[i]);
                if i > 0 {
                    assert(dl[i - 1] == pipes[i - 1]);
                }
                assert(pipes[i].shape_ok(pipe_carry(pipes, i), port_count));
            }
        }
        lemma_edges_ascend(dl, port_count);
        assert forall|e: int|
            0 <= e < pipes_edges(pipes).len() implies (#[trigger] pipes_edges(pipes)[e]).0
            < pipes_edges(pipes)[e].1 by {
            let inner = pipes_edges(dl);
            if e < inner.len() {
                assert(pipes_edges(pipes)[e] == inner[e]);
            } else {
                let base = pipes_processor_count(dl);
                let last_edges = pipe_edges(pipes.last(), base, pipes_stack(dl));
                assert(pipes_edges(pipes)[e] == last_edges[e - inner.len()]);
                let j = e - inner.len();
                assert(pipes.last().shape_ok(pipe_carry(pipes, pipes.len() - 1), port_count));
                if dl.len() == 0 {
                    assert(pipe_carry(pipes, pipes.len() - 1) =~= Seq::<usize>::empty());
                    assert(pipes.last().spec_inputs().len() == 0);
                    assert(false);
                } else {
                    assert(pipe_carry(pipes, pipes.len() - 1) == dl.last().spec_outputs()) by {
                        assert(pipes[pipes.len() - 2] == dl.last());
                    }
                    assert(dl.last().shape_ok(pipe_carry(dl, dl.len() - 1), port_count)) by {
                        assert(dl[dl.len() - 1] == dl.last());
                    }
                    lemma_stack_range(dl, port_count);
                    assert(pipes_stack(dl).len() == dl.last().spec_outputs().len());
                    assert(pipes.last().spec_inputs().len() == pipes_stack(dl).len());
                    assert(0 <= j < pipes.last().spec_inputs().len());
                    assert(last_edges[j].0 == pipes_stack(dl)[j]);
                    assert((pipes_stack(dl)[j] as nat) < base);
                    assert((last_edges[j].1 as nat) >= base);
                }
            }
        }
    }
}

/// Law: after lowering a pipeline whose every stage but the last gives
/// each of its processors an output port, the sinks of the edge list
/// are exactly the nodes of the final pipe.
#[verifier::rlimit(60)]
pub proof fn lemma_sinks_are_final_pipe<P>(pipes: Seq<Pipe<P>>, port_count: nat)
    requires
        pipes.len() > 0,
        pipes_shape_ok(pipes, Seq::empty(), port_count),
        pipes_processor_count(pipes) <= usize::MAX,
        forall|i: int| 0 <= i < pipes.len() - 1 ==> (#[trigger] pipes[i]).fully_out(),
    ensures
        forall|n: usize|
            (n as nat) < pipes_processor_count(pipes) ==> (pg_is_sink(pipes_edges(pipes), n)
                <==> pipes_processor_count(pipes) - pipes.last().spec_processor_count() <= (
            n as nat)),
{
    lemma_shape_implies_linked(pipes, port_count);
    let nn = pipes_processor_count(pipes);
    let base = pipes_processor_count(pipes.drop_last());
    assert(nn == base + pipes.last().spec_processor_count()) by {
        assert(pipes.drop_last() =~= pipes.take(pipes.len() - 1));
        lemma_proc_count_step(pipes, pipes.len() - 1);
        assert(pipes.take(pipes.len() as int) =~= pipes);
    }
    // The final pipe's nodes have no outgoing edges.
    lemma_sources_bounded(pipes, port_count);
    // Every earlier node is the source of some edge.
    assert forall|n: usize| (n as nat) < base implies !pg_is_sink(pipes_edges(pipes), n) by {
        let i = lemma_node_pipe_index(pipes, n as nat);
        // Node n belongs to pipe i, which is fully out, and pipe i+1
        // consumes the whole carry stack.
        let prefix = pipes.take(i + 1);
        assert(prefix.drop_last() =~= pipes.take(i));
        assert(prefix.last() == pipes[i]);
        assert(prefix.last().shape_ok(pipe_carry(prefix, prefix.len() - 1), port_count)) by {
            if i > 0 {
                assert(prefix[i - 1] == pipes[i - 1]);
            }
            assert(pipe_carry(prefix, i) =~= pipe_carry(pipes, i));
        }
        assert(pipes_processor_count(prefix) <= usize::MAX) by {
            lemma_counts_take_le(pipes, i + 1);
        }
        lemma_stack_range(prefix, port_count);
        assert(pipes[i].fully_out());
        assert(pipes_stack(prefix).contains(n));
        let j = choose|j: int|
            0 <= j < pipes_stack(prefix).len() && #[trigger] pipes_stack(prefix)[j] == n;
        // Pipe i + 1 exists and its inputs consume the stack.
        assert(i + 1 < pipes.len());
        assert(pipes[i + 1].shape_ok(pipe_carry(pipes, i + 1), port_count));
        assert(pipe_carry(pipes, i + 1) == pipes[i].spec_outputs());
        assert(pipes[i + 1].spec_inputs().len() == pipes_stack(prefix).len());
        lemma_proc_count_step(pipes, i + 1);
        assert(pipes_edges(pipes.take(i + 2)) == pipes_edges(prefix) + pipe_edges(
            pipes[i + 1],
            pipes_processor_count(prefix),
            pipes_stack(prefix),
        )) by {
            assert(pipes.take(i + 2).drop_last() =~= prefix);
            assert(pipes.take(i + 2).last() == pipes[i + 1]);
        }
        let last_edges = pipe_edges(
            pipes[i + 1],
            pipes_processor_count(prefix),
            pipes_stack(prefix),
        );
        assert(last_edges[j].0 == pipes_stack(prefix)[j]);
        let e = pipes_edges(prefix).len() + j;
        assert(pipes_edges(pipes.take(i + 2))[e].0 == n);
        lemma_edges_prefix(pipes, i + 2);
        assert(pipes_edges(pipes)[e].0 == n);
    }
    assert forall|n: usize| base <= (n as nat) < nn implies pg_is_sink(pipes_edges(pipes), n) by {
        assert forall|e: int| 0 <= e < pipes_edges(pipes).len() implies (#[trigger] pipes_edges(
            pipes,
        )[e]).0 != n by {
            assert(((pipes_edges(pipes)[e]).0 as nat) < base);
        }
    }
}

/// Law: the number of sink nodes equals the number of processors of
/// the final pipe. `sinks` is any listing of the sinks as
/// [`ExecutingGraph::sink_nodes`] promises one: ascending, within the
/// node count, and holding exactly the nodes with no outgoing edge.
pub proof fn lemma_sink_count_is_final_pipe<P>(
    sinks: Seq<usize>,
    pipes: Seq<Pipe<P>>,
    port_count: nat,
)
    requires
        pipes.len() > 0,
        pipes_shape_ok(pipes, Seq::empty(), port_count),
        pipes_processor_count(pipes) <= usize::MAX,
        forall|i: int| 0 <= i < pipes.len() - 1 ==> (#[trigger] pipes[i]).fully_out(),
        forall|j: int|
            0 <= j < sinks.len() ==> ((#[trigger] sinks[j] as nat) < pipes_processor_count(pipes)
                && pg_is_sink(pipes_edges(pipes), sinks[j])),
        forall|n: usize|
            (n as nat) < pipes_processor_count(pipes) && pg_is_sink(pipes_edges(pipes), n)
                ==> sinks.contains(n),
        forall|j1: int, j2: int| 0 <= j1 < j2 < sinks.len() ==> sinks[j1] < sinks[j2],
    ensures
        sinks.len() == pipes.last().spec_processor_count(),
{
    lemma_sinks_are_final_pipe(pipes, port_count);
    let nn = pipes_processor_count(pipes);
    let lo = (nn - pipes.last().spec_processor_count()) as nat;
    assert forall|j: int| 0 <= j < sinks.len() implies lo <= (#[trigger] sinks[j] as nat)
        < nn by {
        assert(pg_is_sink(pipes_edges(pipes), sinks[j]));
    }
    assert forall|n: usize| lo <= (n as nat) < nn implies sinks.contains(n) by {
        assert(pg_is_sink(pipes_edges(pipes), n));
    }
    lemma_asc_complete_len(sinks, lo, nn);
}

/// An ascending list that lies in a range and covers it has the
/// range's length.
proof fn lemma_asc_complete_len(s: Seq<usize>, lo: nat, hi: nat)
    requires
        lo <= hi <= usize::MAX,
        forall|j1: int, j2: int| 0 <= j1 < j2 < s.len() ==> s[j1] < s[j2],
        forall|j: int| 0 <= j < s.len() ==> lo <= (#[trigger] s[j] as nat) < hi,
        forall|n: usize| lo <= (n as nat) < hi ==> s.contains(n),
    ensures
        s.len() == hi - lo,
    decreases hi - lo,
{
    if lo == hi {
        if s.len() > 0 {
            assert(lo <= (s[0] as nat) < hi);
        }
    } else {
        let top: usize = (hi - 1) as usize;
        assert(s.contains(top));
        let w = choose|w: int| 0 <= w < s.len() && #[trigger] s[w] == top;
        assert(w == s.len() - 1) by {
            if w < s.len() - 1 {
                assert(s[w] < s[s.len() - 1]);
                assert(lo <= (s[s.len() - 1] as nat) < hi);
            }
        }
        let rest = s.drop_last();
        assert forall|n: usize| lo <= (n as nat) < (hi - 1) as nat implies rest.contains(n) by {
            assert(s.contains(n));
            let w2 = choose|w2: int| 0 <= w2 < s.len() && #[trigger] s[w2] == n;
            assert(w2 < s.len() - 1) by {
                if w2 == s.len() - 1 {
                    assert(s[w2] == top);
                }
            }
            assert(rest[w2] == n);
        }
        assert forall|j: int| 0 <= j < rest.len() implies lo <= (#[trigger] rest[j] as nat) < (hi
            - 1) as nat by {
            assert(rest[j] == s[j]);
            assert(s[j] < s[s.len() - 1]);
        }
        lemma_asc_complete_len(rest, lo, (hi - 1) as nat);
    }
}

/// The pipe a node belongs to: its nodes start at the prefix count
/// before it and end at the count including it.
proof fn lemma_node_pipe_index<P>(pipes: Seq<Pipe<P>>, n: nat) -> (i: int)
    requires
        n < pipes_processor_count(pipes),
    ensures
        0 <= i < pipes.len(),
        pipes_processor_count(pipes.take(i)) <= n < pipes_processor_count(pipes.take(i + 1)),
    decreases pipes.len(),
{
    assert(pipes.len() > 0);
    let dl = pipes.drop_last();
    assert(pipes_processor_count(pipes) == pipes_processor_count(dl)
        + pipes.last().spec_processor_count());
    if n < pipes_processor_count(dl) {
        let i = lemma_node_pipe_index(dl, n);
        assert(dl.take(i) =~= pipes.take(i));
        assert(dl.take(i + 1) =~= pipes.take(i + 1));
        i
    } else {
        let i = pipes.len() - 1;
        assert(pipes.take(i) =~= dl);
        assert(pipes.take(i + 1) =~= pipes);
        i
    }
}

/// A work item handed to a worker: the index of the node whose
/// processor is to run, either synchronously or asynchronously.
#[derive(Clone, Copy, Debug, PartialEq, Eq, Structural)]
pub enum ExecutorTask {
    Sync(usize),
    Async(usize),
}

/// The per-worker task queues that all workers share.
pub struct ExecutorTasksQueue {
    pub queues: Vec<VecDeque<ExecutorTask>>,
}

impl ExecutorTasksQueue {
    pub fn create(workers: usize) -> (r: ExecutorTasksQueue)
        ensures
            r.queues@.len() == workers,
            forall|w: int| 0 <= w < workers ==> (#[trigger] r.queues@[w])@.len() == 0,
    {
        let mut queues: Vec<VecDeque<ExecutorTask>> = Vec::new();
        let mut w: usize = 0;
        while w < workers
            invariant
                0 <= w <= workers,
                queues@.len() == w,
                forall|t: int| 0 <= t < w ==> (#[trigger] queues@[t])@.len() == 0,
            decreases workers - w,
        {
            queues.push(VecDeque::new());
            w += 1;
        }
        ExecutorTasksQueue { queues }
    }

    /// Append a batch of tasks at the tail of one worker's queue,
    /// keeping their order.
    pub fn push_tasks(&mut self, worker_id: usize, tasks: VecDeque<ExecutorTask>)
        requires
            worker_id < old(self).queues@.len(),
        ensures
            final(self).queues@.len() == old(self).queues@.len(),
            forall|w: int|
                0 <= w < old(self).queues@.len() && w != worker_id ==> final(self).queues@[w]
                    == old(self).queues@[w],
            final(self).queues@[worker_id as int]@ == old(self).queues@[worker_id as int]@
                + tasks@,
    {
        let mut tasks = tasks;
        let q = &mut self.queues[worker_id];
        q.append(&mut tasks);
    }
}

/// One worker's slot for the task it is about to run.
pub struct ExecutorWorkerContext {
    pub worker_num: usize,
    pub task: Option<ExecutorTask>,
}

impl ExecutorWorkerContext {
    pub fn create(worker_num: usize) -> (r: ExecutorWorkerContext)
        ensures
            r.worker_num == worker_num,
            r.task is None,
    {
        ExecutorWorkerContext { worker_num, task: Option::None }
    }

    pub fn has_task(&self) -> (r: bool)
        ensures
            r == (self.task is Some),
    {
        matches!(self.task, Option::Some(_))
    }

    pub fn set_task(&mut self, task: ExecutorTask)
        ensures
            final(self).worker_num == old(self).worker_num,
            final(self).task == Option::Some(task),
    {
        self.task = Option::Some(task);
    }

    pub fn take_task(&mut self) -> (r: Option<ExecutorTask>)
        ensures
            final(self).worker_num == old(self).worker_num,
            final(self).task is None,
            r == old(self).task,
    {
        self.task.take()
    }

    pub fn get_worker_num(&self) -> (r: usize)
        ensures
            r == self.worker_num,
    {
        self.worker_num
    }
}

/// The product of one scheduling pass: the nodes to run, split into a
/// synchronous and an asynchronous queue.
pub struct ScheduleQueue {
    pub sync_queue: VecDeque<usize>,
    pub async_queue: VecDeque<usize>,
}

impl ScheduleQueue {
    pub fn create() -> (r: ScheduleQueue)
        ensures
            r.sync_queue@.len() == 0,
            r.async_queue@.len() == 0,
    {
        ScheduleQueue { sync_queue: VecDeque::new(), async_queue: VecDeque::new() }
    }

    #[inline]
    pub fn push_sync(&mut self, processor: usize)
        ensures
            final(self).sync_queue@ == old(self).sync_queue@.push(processor),
            final(self).async_queue == old(self).async_queue,
    {
        self.sync_queue.push_back(processor);
    }

    #[inline]
    pub fn push_async(&mut self, processor: usize)
        ensures
            final(self).async_queue@ == old(self).async_queue@.push(processor),
            final(self).sync_queue == old(self).sync_queue,
    {
        self.async_queue.push_back(processor);
    }

    /// Take the next task, synchronous work first.
    pub fn pop_task(&mut self) -> (r: Option<ExecutorTask>)
        ensures
            old(self).sync_queue@.len() > 0 ==> {
                &&& r == Option::Some(ExecutorTask::Sync(old(self).sync_queue@[0]))
                &&& final(self).sync_queue@ == old(self).sync_queue@.drop_first()
                &&& final(self).async_queue@ == old(self).async_queue@
            },
            old(self).sync_queue@.len() == 0 && old(self).async_queue@.len() > 0 ==> {
                &&& r == Option::Some(ExecutorTask::Async(old(self).async_queue@[0]))
                &&& final(self).sync_queue@ == old(self).sync_queue@
                &&& final(self).async_queue@ == old(self).async_queue@.drop_first()
            },
            old(self).sync_queue@.len() == 0 && old(self).async_queue@.len() == 0 ==> {
                &&& r is None
                &&& final(self).sync_queue@ == old(self).sync_queue@
                &&& final(self).async_queue@ == old(self).async_queue@
            },
    {
        match self.sync_queue.pop_front() {
            Option::Some(processor) => Option::Some(ExecutorTask::Sync(processor)),
            Option::None => match self.async_queue.pop_front() {
                Option::None => Option::None,
                Option::Some(processor) => Option::Some(ExecutorTask::Async(processor)),
            },
        }
    }

    /// Hand every remaining task to the global queue as one tail,
    /// synchronous tasks first, keeping order within each kind.
    pub fn schedule_tail(self, worker_id: usize, global: &mut ExecutorTasksQueue)
        requires
            worker_id < old(global).queues@.len(),
        ensures
            final(global).queues@.len() == old(global).queues@.len(),
            forall|w: int|
                0 <= w < old(global).queues@.len() && w != worker_id ==> final(global).queues@[w]
                    == old(global).queues@[w],
            final(global).queues@[worker_id as int]@ == old(global).queues@[worker_id as int]@
                + self.sync_queue@.map_values(|p: usize| ExecutorTask::Sync(p))
                + self.async_queue@.map_values(|p: usize| ExecutorTask::Async(p)),
    {
        let mut this = self;
        let ghost sync0 = this.sync_queue@;
        let ghost async0 = this.async_queue@;
        let mut tasks: VecDeque<ExecutorTask> = VecDeque::new();
        while this.sync_queue.len() > 0
            invariant
                this.sync_queue@ =~= sync0.skip(tasks@.len() as int),
                tasks@.len() <= sync0.len(),
                this.async_queue@ == async0,
                tasks@ =~= sync0.take(tasks@.len() as int).map_values(
                    |p: usize| ExecutorTask::Sync(p),
                ),
            decreases this.sync_queue@.len(),
        {
            let ghost k = tasks@.len() as int;
            let p = match this.sync_queue.pop_front() {
                Option::Some(p) => p,
                Option::None => {
                    proof {
                        assert(false);
                    }
                    0
                }
            };
            tasks.push_back(ExecutorTask::Sync(p));
            proof {
                assert(sync0.skip(k)[0] == sync0[k]);
                assert(this.sync_queue@ =~= sync0.skip(k + 1));
                assert(tasks@ =~= sync0.take(k + 1).map_values(
                    |q: usize| ExecutorTask::Sync(q),
                ));
            }
        }
        proof {
            assert(sync0.take(sync0.len() as int) =~= sync0);
        }
        let ghost base = tasks@;
        while this.async_queue.len() > 0
            invariant
                this.async_queue@ =~= async0.skip(tasks@.len() - base.len()),
                base.len() <= tasks@.len() <= base.len() + async0.len(),
                tasks@ =~= base + async0.take(tasks@.len() - base.len()).map_values(
                    |p: usize| ExecutorTask::Async(p),
                ),
            decreases this.async_queue@.len(),
        {
            let ghost k = tasks@.len() - base.len();
            let p = match this.async_queue.pop_front() {
                Option::Some(p) => p,
                Option::None => {
                    proof {
                        assert(false);
                    }
                    0
                }
            };
            tasks.push_back(ExecutorTask::Async(p));
            proof {
                assert(async0.skip(k)[0] == async0[k]);
                assert(this.async_queue@ =~= async0.skip(k + 1));
                assert(tasks@ =~= base + async0.take(k + 1).map_values(
                    |q: usize| ExecutorTask::Async(q),
                ));
            }
        }
        proof {
            assert(async0.take(async0.len() as int) =~= async0);
            assert(tasks@ =~= sync0.map_values(|p: usize| ExecutorTask::Sync(p))
                + async0.map_values(|p: usize| ExecutorTask::Async(p)));
        }
        global.push_tasks(worker_id, tasks);
    }

    /// Dispatch to a worker with an empty slot: steal one synchronous
    /// task when both kinds are waiting (synchronous work must not
    /// wait behind asynchronous work), one asynchronous task when no
    /// synchronous work is waiting, and push whatever remains onto the
    /// worker's global tail.
    pub fn schedule(self, global: &mut ExecutorTasksQueue, context: &mut ExecutorWorkerContext)
        requires
            old(context).task is None,
            old(context).worker_num < old(global).queues@.len(),
        ensures
            final(context).worker_num == old(context).worker_num,
            final(global).queues@.len() == old(global).queues@.len(),
            forall|w: int|
                0 <= w < old(global).queues@.len() && w != old(context).worker_num
                    ==> final(global).queues@[w] == old(global).queues@[w],
            ({
                let sq = self.sync_queue@;
                let aq = self.async_queue@;
                let w = old(context).worker_num as int;
                if sq.len() == 0 && aq.len() > 0 {
                    &&& final(context).task == Option::Some(ExecutorTask::Async(aq[0]))
                    &&& final(global).queues@[w]@ == old(global).queues@[w]@
                        + aq.drop_first().map_values(|p: usize| ExecutorTask::Async(p))
                } else if sq.len() > 0 && aq.len() > 0 {
                    &&& final(context).task == Option::Some(ExecutorTask::Sync(sq[0]))
                    &&& final(global).queues@[w]@ == old(global).queues@[w]@
                        + sq.drop_first().map_values(|p: usize| ExecutorTask::Sync(p))
                        + aq.map_values(|p: usize| ExecutorTask::Async(p))
                } else {
                    &&& final(context).task is None
                    &&& final(global).queues@[w]@ == old(global).queues@[w]@ + sq.map_values(
                        |p: usize| ExecutorTask::Sync(p),
                    )
                }
            }),
    {
        let mut this = self;
        let ghost sq = this.sync_queue@;
        let ghost aq = this.async_queue@;
        if this.sync_queue.len() == 0 {
            this.schedule_async(context);
        } else if this.async_queue.len() > 0 {
            this.schedule_sync(context);
        }
        proof {
            if sq.len() == 0 && aq.len() == 0 {
                assert(aq.map_values(|p: usize| ExecutorTask::Async(p)) =~= Seq::<
                    ExecutorTask,
                >::empty());
                assert(sq.map_values(|p: usize| ExecutorTask::Sync(p)) + aq.map_values(
                    |p: usize| ExecutorTask::Async(p),
                ) =~= sq.map_values(|p: usize| ExecutorTask::Sync(p)));
            }
            if sq.len() == 0 && aq.len() > 0 {
                assert(sq.map_values(|p: usize| ExecutorTask::Sync(p)) =~= Seq::<
                    ExecutorTask,
                >::empty());
                assert(sq.map_values(|p: usize| ExecutorTask::Sync(p)) + aq.drop_first().map_values(
                    |p: usize| ExecutorTask::Async(p),
                ) =~= aq.drop_first().map_values(|p: usize| ExecutorTask::Async(p)));
            }
            if sq.len() > 0 && aq.len() == 0 {
                assert(aq.map_values(|p: usize| ExecutorTask::Async(p)) =~= Seq::<
                    ExecutorTask,
                >::empty());
                assert(sq.map_values(|p: usize| ExecutorTask::Sync(p)) + aq.map_values(
                    |p: usize| ExecutorTask::Async(p),
                ) =~= sq.map_values(|p: usize| ExecutorTask::Sync(p)));
            }
        }
        let worker = context.get_worker_num();
        this.schedule_tail(worker, global);
    }

    /// Steal the first synchronous task into the worker's slot.
    fn schedule_sync(&mut self, ctx: &mut ExecutorWorkerContext)
        ensures
            final(ctx).worker_num == old(ctx).worker_num,
            old(self).sync_queue@.len() > 0 ==> {
                &&& final(ctx).task == Option::Some(
                    ExecutorTask::Sync(old(self).sync_queue@[0]),
                )
                &&& final(self).sync_queue@ == old(self).sync_queue@.drop_first()
            },
            old(self).sync_queue@.len() == 0 ==> final(self).sync_queue@ == old(self).sync_queue@
                && final(ctx).task == old(ctx).task,
            final(self).async_queue@ == old(self).async_queue@,
    {
        if let Option::Some(processor) = self.sync_queue.pop_front() {
            ctx.set_task(ExecutorTask::Sync(processor));
        }
    }

    /// Steal the first asynchronous task into the worker's slot.
    fn schedule_async(&mut self, ctx: &mut ExecutorWorkerContext)
        ensures
            final(ctx).worker_num == old(ctx).worker_num,
            old(self).async_queue@.len() > 0 ==> {
                &&& final(ctx).task == Option::Some(
                    ExecutorTask::Async(old(self).async_queue@[0]),
                )
                &&& final(self).async_queue@ == old(self).async_queue@.drop_first()
            },
            old(self).async_queue@.len() == 0 ==> final(self).async_queue@ == old(self).async_queue@
                && final(ctx).task == old(ctx).task,
            final(self).sync_queue@ == old(self).sync_queue@,
    {
        if let Option::Some(processor) = self.async_queue.pop_front() {
            ctx.set_task(ExecutorTask::Async(processor));
        }
    }
}

/// Copy a port-id vector.
fn clone_usize_vec(v: &Vec<usize>) -> (r: Vec<usize>)
    ensures
        r@ == v@,
{
    let mut r: Vec<usize> = Vec::new();
    let mut j: usize = 0;
    while j < v.len()
        invariant
            0 <= j <= v@.len(),
            r@ == v@.subrange(0, j as int),
        decreases v@.len() - j,
    {
        r.push(v[j]);
        proof {
            assert(r@ =~= v@.subrange(0, j + 1));
        }
        j += 1;
    }
    proof {
        assert(v@.subrange(0, v@.len() as int) =~= v@);
    }
    r
}

/// The ceiling on port transitions one scheduling pass may follow.
/// Processors answer through an unspecified trait method, so a pass
/// cannot be proved to settle; rather than spin unboundedly as an
/// unchecked scheduler would, a pass past this many transitions is
/// reported as an internal fault.
pub const SCHEDULE_BUDGET: u64 = 1000000;

/// Whether every node the queue lists exists and is marked as owned
/// by a worker.
pub open spec fn queue_nodes_ok<P>(g: &ExecutingGraph<P>, q: &ScheduleQueue) -> bool {
    &&& forall|j: int|
        0 <= j < q.sync_queue@.len() ==> ((#[trigger] q.sync_queue@[j] as nat) < g.node_count()
            && g.spec_nodes()[q.sync_queue@[j] as int].state == NodeState::Processing)
    &&& forall|j: int|
        0 <= j < q.async_queue@.len() ==> ((#[trigger] q.async_queue@[j] as nat) < g.node_count()
            && g.spec_nodes()[q.async_queue@[j] as int].state == NodeState::Processing)
}

/// The state a polled node takes for each answer: finished stays
/// demoted, a node waiting on data or on its consumer goes back to
/// idle, and a node with work becomes owned by a worker.
pub open spec fn event_state(ev: Event) -> NodeState {
    match ev {
        Event::Finished => NodeState::Finished,
        Event::NeedData => NodeState::Idle,
        Event::NeedConsume => NodeState::Idle,
        Event::Sync => NodeState::Processing,
        Event::Async => NodeState::Processing,
    }
}

/// How a scheduling pass relates what it leaves to what it was given:
/// tasks are only appended; every appended task names a node that was
/// idle before the pass; a node's state moves only away from idle and
/// only into a state the event table yields; and queues without a
/// repeated task stay so.
pub open spec fn pass_extends<P>(
    g0: ExecutingGraph<P>,
    g1: ExecutingGraph<P>,
    q0: ScheduleQueue,
    q1: ScheduleQueue,
) -> bool {
    &&& q0.sync_queue@.is_prefix_of(q1.sync_queue@)
    &&& q0.async_queue@.is_prefix_of(q1.async_queue@)
    &&& forall|j: int|
        q0.sync_queue@.len() <= j < q1.sync_queue@.len() ==> ((#[trigger] q1.sync_queue@[j] as nat)
            < g0.node_count() && g0.spec_nodes()[q1.sync_queue@[j] as int].state
            == NodeState::Idle)
    &&& forall|j: int|
        q0.async_queue@.len() <= j < q1.async_queue@.len() ==> ((
        #[trigger] q1.async_queue@[j] as nat) < g0.node_count()
            && g0.spec_nodes()[q1.async_queue@[j] as int].state == NodeState::Idle)
    &&& forall|n: int|
        0 <= n < g0.node_count() && (#[trigger] g1.spec_nodes()[n]).state
            != g0.spec_nodes()[n].state ==> (g0.spec_nodes()[n].state == NodeState::Idle && !(
        g1.spec_nodes()[n].state is Preparing))
    &&& ((q0.sync_queue@ + q0.async_queue@).no_duplicates() ==> (q1.sync_queue@
        + q1.async_queue@).no_duplicates())
}

/// Set one node's schedule state, leaving everything else in place.
fn set_node_state<P>(nodes: &mut Vec<Node<P>>, i: usize, st: NodeState)
    requires
        i < old(nodes)@.len(),
    ensures
        final(nodes)@.len() == old(nodes)@.len(),
        forall|j: int| 0 <= j < old(nodes)@.len() && j != i ==> final(nodes)@[j] == old(nodes)@[j],
        final(nodes)@[i as int].state == st,
        final(nodes)@[i as int].processor == old(nodes)@[i as int].processor,
        final(nodes)@[i as int].inputs_port == old(nodes)@[i as int].inputs_port,
        final(nodes)@[i as int].outputs_port == old(nodes)@[i as int].outputs_port,
{
    let n = &mut nodes[i];
    n.state = st;
}

/// Apply one event answer: the node takes the state the table maps
/// the answer to, and a worker is asked for — synchronously or
/// asynchronously — where the answer wants one.
fn apply_event<P>(
    nodes: &mut Vec<Node<P>>,
    schedule_queue: &mut ScheduleQueue,
    node: usize,
    ev: Event,
)
    requires
        (node as nat) < old(nodes)@.len(),
    ensures
        final(nodes)@.len() == old(nodes)@.len(),
        forall|j: int|
            0 <= j < old(nodes)@.len() && j != node ==> #[trigger] final(nodes)@[j] == old(
                nodes,
            )@[j],
        final(nodes)@[node as int].state == event_state(ev),
        final(nodes)@[node as int].processor == old(nodes)@[node as int].processor,
        final(nodes)@[node as int].inputs_port == old(nodes)@[node as int].inputs_port,
        final(nodes)@[node as int].outputs_port == old(nodes)@[node as int].outputs_port,
        final(schedule_queue).sync_queue@ == (if ev == Event::Sync {
            old(schedule_queue).sync_queue@.push(node)
        } else {
            old(schedule_queue).sync_queue@
        }),
        final(schedule_queue).async_queue@ == (if ev == Event::Async {
            old(schedule_queue).async_queue@.push(node)
        } else {
            old(schedule_queue).async_queue@
        }),
{
    match ev {
        Event::Finished => {
            set_node_state(nodes, node, NodeState::Finished);
        },
        Event::NeedData | Event::NeedConsume => {
            set_node_state(nodes, node, NodeState::Idle);
        },
        Event::Sync => {
            set_node_state(nodes, node, NodeState::Processing);
            schedule_queue.push_sync(node);
        },
        Event::Async => {
            set_node_state(nodes, node, NodeState::Processing);
            schedule_queue.push_async(node);
        },
    }
}

/// Appending a task not yet listed keeps the queues free of repeats.
proof fn lemma_queue_push_distinct(a: Seq<usize>, b: Seq<usize>, x: usize)
    requires
        (a + b).no_duplicates(),
        !a.contains(x),
        !b.contains(x),
    ensures
        (a.push(x) + b).no_duplicates(),
        (a + b.push(x)).no_duplicates(),
{
    let s1 = a.push(x) + b;
    assert forall|i: int, j: int| 0 <= i < j < s1.len() implies s1[i] != s1[j] by {
        if i == a.len() {
            if j > a.len() {
                assert(s1[j] == b[j - a.len() - 1]);
                assert(b.contains(b[j - a.len() - 1]));
            }
        } else if j == a.len() {
            assert(s1[i] == a[i]);
            assert(a.contains(a[i]));
        } else {
            let i2 = if i < a.len() { i } else { i - 1 };
            let j2 = if j < a.len() { j } else { j - 1 };
            assert(s1[i] == (a + b)[i2]);
            assert(s1[j] == (a + b)[j2]);
            assert((a + b)[i2] != (a + b)[j2]);
        }
    }
    let s2 = a + b.push(x);
    assert forall|i: int, j: int| 0 <= i < j < s2.len() implies s2[i] != s2[j] by {
        if j == s2.len() - 1 {
            assert(s2[j] == x);
            if i < a.len() {
                assert(s2[i] == a[i]);
                assert(a.contains(a[i]));
            } else {
                assert(s2[i] == b[i - a.len()]);
                assert(b.contains(b[i - a.len()]));
            }
        } else {
            assert(s2[i] == (a + b)[i]);
            assert(s2[j] == (a + b)[j]);
        }
    }
}

impl<P> ExecutingGraph<P> {
    /// How many nodes the graph holds.
    pub fn node_total(&self) -> (r: usize)
        requires
            self.wf(),
        ensures
            r == self.node_count(),
    {
        self.nodes.len()
    }

    /// How many edges the graph holds.
    pub fn edge_total(&self) -> (r: usize)
        requires
            self.wf(),
        ensures
            r == self.spec_edges().len(),
    {
        pg_edge_count(&self.graph)
    }

    /// The nodes with no outgoing edge, in ascending order: the sinks
    /// the initial scheduling wave starts from.
    pub fn sink_nodes(&self) -> (r: Vec<usize>)
        requires
            self.wf(),
        ensures
            forall|j: int|
                0 <= j < r@.len() ==> ((#[trigger] r@[j] as nat) < self.node_count() && pg_is_sink(
                    self.spec_edges(),
                    r@[j],
                )),
            forall|n: usize|
                (n as nat) < self.node_count() && pg_is_sink(self.spec_edges(), n) ==> r@.contains(
                    n,
                ),
            forall|j1: int, j2: int| 0 <= j1 < j2 < r@.len() ==> r@[j1] < r@[j2],
    {
        pg_sinks(&self.graph)
    }
}

impl<P: Processor> ExecutingGraph<P> {
    /// One scheduling pass from a seed node: poll the seed when it is
    /// idle, follow every port transition the polled processors
    /// effect, and set each polled node's state — and queue it for a
    /// worker — as the event table says. Only an idle node is ever
    /// polled, so a node owned by a worker or already finished keeps
    /// its state, and a seed that is not idle leaves everything as it
    /// was. A processor's error aborts the pass with the tasks pushed
    /// so far kept; so does exceeding the transition budget.
    pub fn schedule_queue(&mut self, index: usize, schedule_queue: &mut ScheduleQueue) -> (r:
        Result<(), EngineError>)
        requires
            old(self).wf(),
            (index as nat) < old(self).node_count(),
            queue_nodes_ok(old(self), old(schedule_queue)),
        ensures
            final(self).wf(),
            final(self).node_count() == old(self).node_count(),
            final(self).spec_edges() == old(self).spec_edges(),
            final(self).spec_ports().port_count() == old(self).spec_ports().port_count(),
            queue_nodes_ok(final(self), final(schedule_queue)),
            pass_extends(*old(self), *final(self), *old(schedule_queue), *final(schedule_queue)),
            forall|n: int|
                0 <= n < old(self).node_count() && ((#[trigger] old(self).spec_nodes()[n]).state
                    == NodeState::Processing || old(self).spec_nodes()[n].state
                    == NodeState::Finished) ==> final(self).spec_nodes()[n].state == old(
                    self,
                ).spec_nodes()[n].state,
            old(self).spec_nodes()[index as int].state != NodeState::Idle ==> {
                &&& r is Ok
                &&& final(self).spec_nodes() == old(self).spec_nodes()
                &&& final(self).spec_ports() == old(self).spec_ports()
                &&& final(schedule_queue).sync_queue@ == old(schedule_queue).sync_queue@
                &&& final(schedule_queue).async_queue@ == old(schedule_queue).async_queue@
            },
    {
        if !matches!(self.nodes[index].state, NodeState::Idle) {
            return Ok(());
        }
        let mut need_schedule_nodes: VecDeque<usize> = VecDeque::new();
        let mut need_schedule_edges: VecDeque<DirectedEdge> = VecDeque::new();
        need_schedule_nodes.push_back(index);
        let mut fuel: u64 = SCHEDULE_BUDGET;
        while need_schedule_nodes.len() > 0 || need_schedule_edges.len() > 0
            invariant
                self.wf(),
                self.node_count() == old(self).node_count(),
                self.spec_edges() == old(self).spec_edges(),
                self.spec_ports().port_count() == old(self).spec_ports().port_count(),
                queue_nodes_ok(self, schedule_queue),
                old(self).spec_nodes()[index as int].state == NodeState::Idle,
                old(schedule_queue).sync_queue@.is_prefix_of(schedule_queue.sync_queue@),
                old(schedule_queue).async_queue@.is_prefix_of(schedule_queue.async_queue@),
                forall|j: int|
                    old(schedule_queue).sync_queue@.len() <= j < schedule_queue.sync_queue@.len()
                        ==> ((#[trigger] schedule_queue.sync_queue@[j] as nat) < old(
                        self,
                    ).node_count() && old(self).spec_nodes()[schedule_queue.sync_queue@[j] as int].state
                        == NodeState::Idle),
                forall|j: int|
                    old(schedule_queue).async_queue@.len() <= j
                        < schedule_queue.async_queue@.len() ==> ((
                    #[trigger] schedule_queue.async_queue@[j] as nat) < old(self).node_count()
                        && old(self).spec_nodes()[schedule_queue.async_queue@[j] as int].state
                        == NodeState::Idle),
                forall|n: int|
                    0 <= n < old(self).node_count() && (#[trigger] self.spec_nodes()[n]).state
                        != old(self).spec_nodes()[n].state ==> (old(self).spec_nodes()[n].state
                        == NodeState::Idle && !(self.spec_nodes()[n].state is Preparing)),
                (old(schedule_queue).sync_queue@ + old(
                    schedule_queue,
                ).async_queue@).no_duplicates() ==> (schedule_queue.sync_queue@
                    + schedule_queue.async_queue@).no_duplicates(),
                forall|j: int|
                    0 <= j < need_schedule_nodes@.len() ==> (#[trigger] need_schedule_nodes@[j] as nat)
                        < self.node_count(),
            decreases fuel,
        {
            if fuel == 0 {
                return Err(EngineError::internal(String::from_str(
                    "schedule pass exceeded its budget",
                )));
            }
            fuel = fuel - 1;
            if need_schedule_nodes.len() == 0 {
                let edge = match need_schedule_edges.pop_front() {
                    Option::Some(e) => e,
                    Option::None => {
                        proof {
                            assert(false);
                        }
                        DirectedEdge { edge: 0, from_source_side: true }
                    }
                };
                match pg_edge_endpoints(&self.graph, edge.edge) {
                    Option::Some(pair) => {
                        // A transition on the source side re-polls the
                        // target; one on the target side, the source.
                        let target_index = if edge.from_source_side {
                            pair.1
                        } else {
                            pair.0
                        };
                        proof {
                            assert(self.spec_edges()[edge.edge as int] == pair);
                        }
                        if matches!(self.nodes[target_index].state, NodeState::Idle) {
                            need_schedule_nodes.push_back(target_index);
                        }
                    },
                    Option::None => {},
                }
            }
            if need_schedule_nodes.len() > 0 {
                let schedule_index = match need_schedule_nodes.pop_front() {
                    Option::Some(n) => n,
                    Option::None => {
                        proof {
                            assert(false);
                        }
                        0
                    }
                };
                // A node may be reachable along several edges and sit
                // in the deque twice; only an idle node is polled, so
                // a node owned by a worker is never touched.
                if matches!(self.nodes[schedule_index].state, NodeState::Idle) {
                    let ev = match self.nodes[schedule_index].processor.event(&mut self.ports) {
                        Ok(ev) => ev,
                        Err(e) => {
                            return Err(e);
                        }
                    };
                    proof {
                        // The polled node is listed in neither queue:
                        // listed nodes are owned, this one is idle.
                        if schedule_queue.sync_queue@.contains(schedule_index) {
                            let w = choose|w: int|
                                0 <= w < schedule_queue.sync_queue@.len()
                                    && #[trigger] schedule_queue.sync_queue@[w] == schedule_index;
                            assert(false);
                        }
                        if schedule_queue.async_queue@.contains(schedule_index) {
                            let w = choose|w: int|
                                0 <= w < schedule_queue.async_queue@.len()
                                    && #[trigger] schedule_queue.async_queue@[w] == schedule_index;
                            assert(false);
                        }
                        if (old(schedule_queue).sync_queue@ + old(
                            schedule_queue,
                        ).async_queue@).no_duplicates() {
                            lemma_queue_push_distinct(
                                schedule_queue.sync_queue@,
                                schedule_queue.async_queue@,
                                schedule_index,
                            );
                        }
                    }
                    apply_event(&mut self.nodes, schedule_queue, schedule_index, ev);
                    let updates = self.ports.take_updates(schedule_index);
                    let mut u: usize = 0;
                    while u < updates.len()
                        invariant
                            0 <= u <= updates@.len(),
                        decreases updates@.len() - u,
                    {
                        need_schedule_edges.push_back(updates[u]);
                        u += 1;
                    }
                }
            }
        }
        Ok(())
    }

    /// The initial scheduling wave: run one pass from every sink of
    /// the graph, collecting all tasks into one queue. Every task
    /// names a distinct node that was idle before the wave and is
    /// owned by a worker after it, synchronous or asynchronous as
    /// that node's processor answered.
    pub fn init_schedule_queue(&mut self) -> (r: Result<ScheduleQueue, EngineError>)
        requires
            old(self).wf(),
        ensures
            final(self).wf(),
            final(self).node_count() == old(self).node_count(),
            final(self).spec_edges() == old(self).spec_edges(),
            final(self).spec_ports().port_count() == old(self).spec_ports().port_count(),
            forall|n: int|
                0 <= n < old(self).node_count() && (#[trigger] final(self).spec_nodes()[n]).state
                    != old(self).spec_nodes()[n].state ==> (old(self).spec_nodes()[n].state
                    == NodeState::Idle && !(final(self).spec_nodes()[n].state is Preparing)),
            forall|n: int|
                0 <= n < old(self).node_count() && ((#[trigger] old(self).spec_nodes()[n]).state
                    == NodeState::Processing || old(self).spec_nodes()[n].state
                    == NodeState::Finished) ==> final(self).spec_nodes()[n].state == old(
                    self,
                ).spec_nodes()[n].state,
            match r {
                Ok(q) => {
                    &&& queue_nodes_ok(final(self), &q)
                    &&& (q.sync_queue@ + q.async_queue@).no_duplicates()
                    &&& forall|j: int|
                        0 <= j < q.sync_queue@.len() ==> ((#[trigger] q.sync_queue@[j] as nat)
                            < old(self).node_count() && old(
                            self,
                        ).spec_nodes()[q.sync_queue@[j] as int].state == NodeState::Idle)
                    &&& forall|j: int|
                        0 <= j < q.async_queue@.len() ==> ((#[trigger] q.async_queue@[j] as nat)
                            < old(self).node_count() && old(
                            self,
                        ).spec_nodes()[q.async_queue@[j] as int].state == NodeState::Idle)
                },
                Err(_) => true,
            },
    {
        let mut schedule_queue = ScheduleQueue::create();
        proof {
            assert((schedule_queue.sync_queue@ + schedule_queue.async_queue@).no_duplicates());
        }
        let sinks = pg_sinks(&self.graph);
        let mut s: usize = 0;
        while s < sinks.len()
            invariant
                0 <= s <= sinks@.len(),
                self.wf(),
                self.node_count() == old(self).node_count(),
                self.spec_edges() == old(self).spec_edges(),
                self.spec_ports().port_count() == old(self).spec_ports().port_count(),
                queue_nodes_ok(self, &schedule_queue),
                (schedule_queue.sync_queue@ + schedule_queue.async_queue@).no_duplicates(),
                forall|j: int|
                    0 <= j < schedule_queue.sync_queue@.len() ==> ((
                    #[trigger] schedule_queue.sync_queue@[j] as nat) < old(self).node_count()
                        && old(self).spec_nodes()[schedule_queue.sync_queue@[j] as int].state
                        == NodeState::Idle),
                forall|j: int|
                    0 <= j < schedule_queue.async_queue@.len() ==> ((
                    #[trigger] schedule_queue.async_queue@[j] as nat) < old(self).node_count()
                        && old(self).spec_nodes()[schedule_queue.async_queue@[j] as int].state
                        == NodeState::Idle),
                forall|n: int|
                    0 <= n < old(self).node_count() && (#[trigger] self.spec_nodes()[n]).state
                        != old(self).spec_nodes()[n].state ==> (old(self).spec_nodes()[n].state
                        == NodeState::Idle && !(self.spec_nodes()[n].state is Preparing)),
                forall|j: int|
                    0 <= j < sinks@.len() ==> (#[trigger] sinks@[j] as nat) < old(
                        self,
                    ).node_count(),
            decreases sinks@.len() - s,
        {
            let sink_index = sinks[s];
            let ghost before = *self;
            let ghost queue_before = schedule_queue;
            match self.schedule_queue(sink_index, &mut schedule_queue) {
                Ok(()) => {},
                Err(e) => {
                    return Err(e);
                },
            }
            proof {
                // Compose this pass's promises with the wave's: a task
                // it appended was idle at the pass, hence at the wave;
                // a state it changed moved away from idle.
                assert forall|j: int|
                    0 <= j < schedule_queue.sync_queue@.len() implies ((
                #[trigger] schedule_queue.sync_queue@[j] as nat) < old(self).node_count() && old(
                    self,
                ).spec_nodes()[schedule_queue.sync_queue@[j] as int].state
                    == NodeState::Idle) by {
                    if j < queue_before.sync_queue@.len() {
                        assert(schedule_queue.sync_queue@[j] == queue_before.sync_queue@[j]);
                    } else {
                        let n = schedule_queue.sync_queue@[j] as int;
                        assert(before.spec_nodes()[n].state == NodeState::Idle);
                        if before.spec_nodes()[n].state != old(self).spec_nodes()[n].state {
                            assert(old(self).spec_nodes()[n].state == NodeState::Idle);
                        }
                    }
                }
                assert forall|j: int|
                    0 <= j < schedule_queue.async_queue@.len() implies ((
                #[trigger] schedule_queue.async_queue@[j] as nat) < old(self).node_count() && old(
                    self,
                ).spec_nodes()[schedule_queue.async_queue@[j] as int].state
                    == NodeState::Idle) by {
                    if j < queue_before.async_queue@.len() {
                        assert(schedule_queue.async_queue@[j] == queue_before.async_queue@[j]);
                    } else {
                        let n = schedule_queue.async_queue@[j] as int;
                        assert(before.spec_nodes()[n].state == NodeState::Idle);
                        if before.spec_nodes()[n].state != old(self).spec_nodes()[n].state {
                            assert(old(self).spec_nodes()[n].state == NodeState::Idle);
                        }
                    }
                }
                assert forall|n: int|
                    0 <= n < old(self).node_count() && (#[trigger] self.spec_nodes()[n]).state
                        != old(self).spec_nodes()[n].state implies (old(self).spec_nodes()[n].state
                    == NodeState::Idle && !(self.spec_nodes()[n].state is Preparing)) by {
                    if self.spec_nodes()[n].state != before.spec_nodes()[n].state {
                    } else {
                        assert(before.spec_nodes()[n].state != old(self).spec_nodes()[n].state);
                    }
                }
            }
            s += 1;
        }
        Ok(schedule_queue)
    }
}

/// The executor graph as the workers hold it.
pub struct RunningGraph<P>(pub ExecutingGraph<P>);

impl<P: Processor> RunningGraph<P> {
    /// Lower a pipeline and wrap the resulting graph.
    pub fn create(pipeline: Pipeline<P>) -> (r: Result<RunningGraph<P>, EngineError>)
        ensures
            match r {
                Ok(g) => {
                    &&& pipeline_ok(pipeline.pipes@, pipeline.ports.port_count())
                    &&& g.0.wf()
                    &&& g.0.node_count() == pipes_processor_count(pipeline.pipes@)
                    &&& g.0.spec_edges() == pipes_edges(pipeline.pipes@)
                },
                Err(e) => {
                    &&& e.kind == ErrorKind::Internal
                    &&& !pipeline_ok(pipeline.pipes@, pipeline.ports.port_count())
                },
            },
    {
        let graph_state = match ExecutingGraph::create(pipeline) {
            Ok(g) => g,
            Err(e) => {
                return Err(e);
            },
        };
        Ok(RunningGraph(graph_state))
    }

    /// Run the initial scheduling wave.
    pub fn init_schedule_queue(&mut self) -> (r: Result<ScheduleQueue, EngineError>)
        requires
            old(self).0.wf(),
        ensures
            final(self).0.wf(),
            forall|n: int|
                0 <= n < old(self).0.node_count()
                    && (#[trigger] final(self).0.spec_nodes()[n]).state
                    != old(self).0.spec_nodes()[n].state
                    ==> (old(self).0.spec_nodes()[n].state == NodeState::Idle
                    && !(final(self).0.spec_nodes()[n].state is Preparing)),
            match r {
                Ok(q) => {
                    &&& queue_nodes_ok(&final(self).0, &q)
                    &&& (q.sync_queue@ + q.async_queue@).no_duplicates()
                    &&& forall|j: int|
                        0 <= j < q.sync_queue@.len() ==> ((#[trigger] q.sync_queue@[j] as nat)
                            < old(self).0.node_count() && old(
                            self,
                        ).0.spec_nodes()[q.sync_queue@[j] as int].state == NodeState::Idle)
                    &&& forall|j: int|
                        0 <= j < q.async_queue@.len() ==> ((#[trigger] q.async_queue@[j] as nat)
                            < old(self).0.node_count() && old(
                            self,
                        ).0.spec_nodes()[q.async_queue@[j] as int].state == NodeState::Idle)
                },
                Err(_) => true,
            },
    {
        self.0.init_schedule_queue()
    }

    /// Run one scheduling pass from the given node into a fresh queue.
    pub fn schedule_queue(&mut self, node_index: usize) -> (r: Result<ScheduleQueue, EngineError>)
        requires
            old(self).0.wf(),
            (node_index as nat) < old(self).0.node_count(),
        ensures
            final(self).0.wf(),
            match r {
                Ok(q) => {
                    &&& queue_nodes_ok(&final(self).0, &q)
                    &&& (q.sync_queue@ + q.async_queue@).no_duplicates()
                    &&& forall|j: int|
                        0 <= j < q.sync_queue@.len() ==> ((#[trigger] q.sync_queue@[j] as nat)
                            < old(self).0.node_count() && old(
                            self,
                        ).0.spec_nodes()[q.sync_queue@[j] as int].state == NodeState::Idle)
                    &&& forall|j: int|
                        0 <= j < q.async_queue@.len() ==> ((#[trigger] q.async_queue@[j] as nat)
                            < old(self).0.node_count() && old(
                            self,
                        ).0.spec_nodes()[q.async_queue@[j] as int].state == NodeState::Idle)
                },
                Err(_) => true,
            },
    {
        let mut schedule_queue = ScheduleQueue::create();
        proof {
            assert((schedule_queue.sync_queue@ + schedule_queue.async_queue@).no_duplicates());
        }
        match self.0.schedule_queue(node_index, &mut schedule_queue) {
            Ok(()) => Ok(schedule_queue),
            Err(e) => Err(e),
        }
    }
}

} // verus!
