//! A scan source for the executor graph: a state machine that hands
//! pre-read column chunks downstream as blocks, filtering rows by an
//! optional predicate and permuting columns to the output schema.
//!
//! Reading is I/O and stays outside the library: the driver fetches a
//! partition's chunks and hands them in through [`FuseNativeSource::on_chunks_read`];
//! everything from there to the pushed block is verified.

use vstd::prelude::*;
use vstd::string::StringExecFns;

use crate::error::EngineError;
use crate::error::ErrorKind;
use crate::expr::Expr;
use crate::expr::eval_row_exec;
use crate::pipeline::Event;
use crate::pipeline::PortArena;
use crate::pipeline::Processor;
use crate::expr::eval_row;
use crate::value::Column;
use crate::value::ColumnView;
use crate::value::DataBlock;
use crate::value::DataType;
use crate::value::TypeID;
use crate::value::Value;
use crate::value::ValueView;
use crate::value::block_bytes;
use crate::value::block_rows;
use crate::value::block_wf;
use crate::value::find_column;
use crate::value::kept_rows;
use crate::value::take_view;

verus! {

/// One partition to scan, named for tracing.
pub struct PartInfo {
    pub name: String,
}

/// The pre-read chunks of one column: the column's position in the
/// assembled block, and its batches in arrival order.
pub struct ChunkData {
    pub index: usize,
    pub arrays: Vec<Column>,
}

impl ChunkData {
    /// Whether another batch is waiting.
    pub fn has_next(&self) -> (r: bool)
        ensures
            r == (self.arrays@.len() > 0),
    {
        self.arrays.len() > 0
    }

    /// Take the next batch.
    pub fn next_array(&mut self) -> (r: Column)
        requires
            old(self).arrays@.len() > 0,
        ensures
            r == old(self).arrays@[0],
            final(self).arrays@ == old(self).arrays@.drop_first(),
            final(self).index == old(self).index,
    {
        self.arrays.remove(0)
    }
}

/// The first pending batch of every chunk: the columns of the block
/// the deserialize step assembles.
pub open spec fn chunk_heads(chunks: Seq<ChunkData>) -> Seq<ColumnView> {
    Seq::new(chunks.len(), |k: int| chunks[k].arrays@[0]@)
}

/// Whether every chunk still holds a batch.
pub open spec fn all_chunks_ready(chunks: Seq<ChunkData>) -> bool {
    forall|k: int| 0 <= k < chunks.len() ==> (#[trigger] chunks[k]).arrays@.len() > 0
}

/// One batch taken from each chunk, positions kept.
pub open spec fn chunks_advanced(before: Seq<ChunkData>, after: Seq<ChunkData>) -> bool {
    &&& after.len() == before.len()
    &&& forall|k: int|
        0 <= k < before.len() ==> {
            &&& (#[trigger] after[k]).index == before[k].index
            &&& after[k].arrays@ == before[k].arrays@.drop_first()
        }
}

/// The predicate column the filter evaluates to: one boolean per row,
/// true exactly where the expression evaluates to true.
pub open spec fn predicate_values(f: Expr, b: Seq<ColumnView>) -> Seq<ValueView> {
    Seq::new(
        block_rows(b),
        |r: int|
            ValueView::Boolean(eval_row(f, b, r) == Option::Some(ValueView::Boolean(true))),
    )
}

/// The assembled block after the optional predicate.
pub open spec fn filtered_heads(f: Option<Expr>, b: Seq<ColumnView>) -> Seq<ColumnView> {
    match f {
        Option::None => b,
        Option::Some(e) => take_view(b, kept_rows(predicate_values(e, b))),
    }
}

/// The block permuted to the output names.
pub open spec fn resorted_view(b: Seq<ColumnView>, fields: Seq<String>) -> Seq<ColumnView> {
    Seq::new(fields.len(), |i: int| b[find_column(b, fields[i]@).unwrap()])
}

/// Addition on a scan counter, clipped at its bound.
pub open spec fn clip_add64(a: u64, b: nat) -> u64 {
    if a + b <= u64::MAX {
        (a + b) as u64
    } else {
        u64::MAX
    }
}

/// A byte total, clipped at the machine's largest size.
pub open spec fn clip_usize(n: nat) -> nat {
    if n <= usize::MAX {
        n
    } else {
        usize::MAX as nat
    }
}

/// Where the source stands.
pub enum SourceState {
    /// Waiting for a partition to read (or for one to be picked).
    ReadData(Option<PartInfo>),
    /// Chunks are in hand; the next block can be assembled.
    Deserialize(Vec<ChunkData>),
    /// A block is ready to push; the chunks continue after it.
    Generated(DataBlock, Vec<ChunkData>),
    /// No partitions remain.
    Finish,
}

/// A source processor feeding one output port from a queue of
/// partitions.
pub struct FuseNativeSource {
    pub state: SourceState,
    /// The partitions still to scan, next first.
    pub parts: Vec<PartInfo>,
    /// Rows handed downstream so far.
    pub scan_rows: u64,
    /// Bytes handed downstream so far, clipped at the machine's bound.
    pub scan_bytes: u64,
    pub output: usize,
    /// The names the pushed block's columns are permuted to.
    pub output_fields: Vec<String>,
    /// How many leading chunks belong to the predicate's columns.
    pub prewhere_columns: usize,
    pub prewhere_filter: Option<Expr>,
    pub support_blocking: bool,
}

impl FuseNativeSource {
    /// Set up a source over the given partitions.
    pub fn create(
        parts: Vec<PartInfo>,
        output: usize,
        output_fields: Vec<String>,
        prewhere_columns: usize,
        prewhere_filter: Option<Expr>,
        support_blocking: bool,
    ) -> (r: FuseNativeSource)
        ensures
            r.state is ReadData && r.state->ReadData_0 is None,
            r.parts == parts,
            r.output == output,
            r.output_fields == output_fields,
            r.prewhere_columns == prewhere_columns,
            r.support_blocking == support_blocking,
            r.scan_rows == 0,
    {
        FuseNativeSource {
            state: SourceState::ReadData(Option::None),
            parts,
            scan_rows: 0,
            scan_bytes: 0,
            output,
            output_fields,
            prewhere_columns,
            prewhere_filter,
            support_blocking,
        }
    }

    /// Poll readiness: pick the next partition when idle, finish when
    /// none remain or the consumer is gone, wait while the port is
    /// full, push a generated block, and otherwise ask for a worker —
    /// a blocking reader runs synchronously, any other asynchronously.
    pub fn source_event(&mut self, ports: &mut PortArena) -> (r: Result<Event, EngineError>)
        requires
            (old(self).output as nat) < old(ports).port_count(),
        ensures
            final(ports).port_count() == old(ports).port_count(),
            final(ports).node_count() == old(ports).node_count(),
            final(self).parts@ == (if old(self).state is ReadData && old(
                self,
            ).state->ReadData_0 is None && old(self).parts@.len() > 0 {
                old(self).parts@.drop_first()
            } else {
                old(self).parts@
            }),
            r is Ok,
            ({
                let ev = r.unwrap();
                let picked = if old(self).state is ReadData && old(self).state->ReadData_0 is None {
                    if old(self).parts@.len() == 0 {
                        SourceState::Finish
                    } else {
                        SourceState::ReadData(Option::Some(old(self).parts@[0]))
                    }
                } else {
                    old(self).state
                };
                if picked is Finish {
                    &&& ev == Event::Finished
                    &&& final(self).state is Finish
                    &&& final(ports).port_at(old(self).output as int).is_finished
                } else if old(ports).port_at(old(self).output as int).is_finished {
                    &&& ev == Event::Finished
                    &&& final(self).state == picked
                    &&& final(ports).port_at(old(self).output as int) == old(ports).port_at(
                        old(self).output as int,
                    )
                } else if old(ports).port_at(old(self).output as int).has_data() {
                    &&& ev == Event::NeedConsume
                    &&& final(self).state == picked
                    &&& final(ports).port_at(old(self).output as int) == old(ports).port_at(
                        old(self).output as int,
                    )
                } else if picked is Generated {
                    &&& ev == Event::NeedConsume
                    &&& final(self).state is Deserialize
                    &&& final(self).state->Deserialize_0 == picked->Generated_1
                    &&& final(ports).port_at(old(self).output as int).data == Option::Some(
                        picked->Generated_0,
                    )
                } else if picked is ReadData {
                    &&& ev == (if old(self).support_blocking {
                        Event::Sync
                    } else {
                        Event::Async
                    })
                    &&& final(self).state == picked
                } else {
                    &&& ev == Event::Sync
                    &&& final(self).state == picked
                }
            }),
    {
        if matches!(self.state, SourceState::ReadData(Option::None)) {
            if self.parts.len() == 0 {
                self.state = SourceState::Finish;
            } else {
                let part = self.parts.remove(0);
                self.state = SourceState::ReadData(Option::Some(part));
            }
        }
        if matches!(self.state, SourceState::Finish) {
            ports.output_finish(self.output);
            return Ok(Event::Finished);
        }
        if ports.is_finished(self.output) {
            return Ok(Event::Finished);
        }
        if !ports.can_push(self.output) {
            return Ok(Event::NeedConsume);
        }
        let mut taken = SourceState::Finish;
        core::mem::swap(&mut self.state, &mut taken);
        match taken {
            SourceState::Generated(data_block, chunks) => {
                self.state = SourceState::Deserialize(chunks);
                ports.push_data(self.output, data_block);
                Ok(Event::NeedConsume)
            },
            SourceState::ReadData(part) => {
                self.state = SourceState::ReadData(part);
                if self.support_blocking {
                    Ok(Event::Sync)
                } else {
                    Ok(Event::Async)
                }
            },
            SourceState::Deserialize(chunks) => {
                self.state = SourceState::Deserialize(chunks);
                Ok(Event::Sync)
            },
            SourceState::Finish => {
                self.state = SourceState::Finish;
                Ok(Event::Sync)
            },
        }
    }

    /// Hand over the chunks a partition's read produced; the source
    /// must have been waiting on that read.
    pub fn on_chunks_read(&mut self, chunks: Vec<ChunkData>) -> (r: Result<(), EngineError>)
        ensures
            match r {
                Ok(()) => old(self).state is ReadData && old(self).state->ReadData_0 is Some
                    && final(self).state is Deserialize,
                Err(e) => e.kind == ErrorKind::Internal && !(old(self).state is ReadData
                    && old(self).state->ReadData_0 is Some),
            },
    {
        if matches!(self.state, SourceState::ReadData(Option::Some(_))) {
            self.state = SourceState::Deserialize(chunks);
            Ok(())
        } else {
            Err(EngineError::internal(String::from_str("It's a bug.")))
        }
    }

    /// One synchronous work step, owed whenever chunks are in hand:
    /// pop one batch from every chunk and assemble them as the next
    /// block, filter its rows by the predicate, account the scan, and
    /// permute the block to the output schema, holding it for the next
    /// poll. An exhausted chunk instead sends the source back for the
    /// next partition. Ragged batches, a block too tall to filter, or
    /// an output name the block lacks are errors, and any other state
    /// is the internal fault the scheduler must not produce.
    #[verifier::loop_isolation(false)]
    pub fn source_process(&mut self) -> (r: Result<(), EngineError>)
        ensures
            final(self).output == old(self).output,
            final(self).output_fields == old(self).output_fields,
            final(self).prewhere_filter == old(self).prewhere_filter,
            final(self).prewhere_columns == old(self).prewhere_columns,
            final(self).support_blocking == old(self).support_blocking,
            final(self).parts == old(self).parts,
            !(old(self).state is Deserialize) ==> {
                &&& r is Err
                &&& r->Err_0.kind == ErrorKind::Internal
                &&& r->Err_0.message@ == "It's a bug."@
                &&& final(self).state is Finish
                &&& final(self).scan_rows == old(self).scan_rows
                &&& final(self).scan_bytes == old(self).scan_bytes
            },
            old(self).state is Deserialize ==> ({
                let chunks0 = old(self).state->Deserialize_0@;
                let assembled = chunk_heads(chunks0);
                let fb = filtered_heads(old(self).prewhere_filter, assembled);
                if !all_chunks_ready(chunks0) {
                    &&& r is Ok
                    &&& final(self).state is ReadData
                    &&& final(self).state->ReadData_0 is None
                    &&& final(self).scan_rows == old(self).scan_rows
                    &&& final(self).scan_bytes == old(self).scan_bytes
                } else if !block_wf(assembled) {
                    &&& r is Err
                    &&& r->Err_0.kind == ErrorKind::Internal
                    &&& final(self).state is Finish
                    &&& final(self).scan_rows == old(self).scan_rows
                    &&& final(self).scan_bytes == old(self).scan_bytes
                } else if old(self).prewhere_filter is Some && block_rows(assembled) > u32::MAX {
                    &&& r is Err
                    &&& r->Err_0.kind == ErrorKind::BadArguments
                    &&& final(self).state is Finish
                    &&& final(self).scan_rows == old(self).scan_rows
                    &&& final(self).scan_bytes == old(self).scan_bytes
                } else if exists|i: int|
                    0 <= i < old(self).output_fields@.len() && #[trigger] find_column(
                        fb,
                        old(self).output_fields@[i]@,
                    ) is None {
                    &&& r is Err
                    &&& r->Err_0.kind == ErrorKind::UnknownColumn
                    &&& final(self).state is Finish
                    &&& final(self).scan_rows == clip_add64(old(self).scan_rows, block_rows(fb))
                    &&& final(self).scan_bytes == clip_add64(
                        old(self).scan_bytes,
                        clip_usize(block_bytes(fb)),
                    )
                } else {
                    &&& r is Ok
                    &&& final(self).state is Generated
                    &&& final(self).state->Generated_0@ == resorted_view(
                        fb,
                        old(self).output_fields@,
                    )
                    &&& chunks_advanced(chunks0, final(self).state->Generated_1@)
                    &&& final(self).scan_rows == clip_add64(old(self).scan_rows, block_rows(fb))
                    &&& final(self).scan_bytes == clip_add64(
                        old(self).scan_bytes,
                        clip_usize(block_bytes(fb)),
                    )
                }
            }),
    {
        let mut taken = SourceState::Finish;
        core::mem::swap(&mut self.state, &mut taken);
        match taken {
            SourceState::Deserialize(chunks) => {
                let mut chunks = chunks;
                let ghost chunks0 = chunks@;
                // An exhausted chunk means the partition is done.
                let mut exhausted = false;
                let mut ci: usize = 0;
                while ci < chunks.len() && !exhausted
                    invariant
                        0 <= ci <= chunks@.len(),
                        chunks@ == chunks0,
                        exhausted ==> !all_chunks_ready(chunks0),
                        !exhausted ==> forall|k: int|
                            0 <= k < ci ==> (#[trigger] chunks@[k]).arrays@.len() > 0,
                    decreases chunks@.len() - ci, (if exhausted { 0int } else { 1int }),
                {
                    if !chunks[ci].has_next() {
                        exhausted = true;
                    } else {
                        ci += 1;
                    }
                }
                if exhausted {
                    self.state = SourceState::ReadData(Option::None);
                    return Ok(());
                }
                proof {
                    assert(all_chunks_ready(chunks0));
                }
                // Pop one batch per chunk, in position order.
                let mut columns: Vec<Column> = Vec::new();
                let mut ci2: usize = 0;
                while ci2 < chunks.len()
                    invariant
                        0 <= ci2 <= chunks@.len(),
                        chunks@.len() == chunks0.len(),
                        columns@.len() == ci2,
                        forall|k: int|
                            0 <= k < ci2 ==> {
                                &&& (#[trigger] chunks@[k]).index == chunks0[k].index
                                &&& chunks@[k].arrays@ == chunks0[k].arrays@.drop_first()
                            },
                        forall|k: int| ci2 <= k < chunks@.len() ==> #[trigger] chunks@[k] == chunks0[k],
                        forall|k: int|
                            0 <= k < ci2 ==> (#[trigger] columns@[k])@ == chunk_heads(chunks0)[k],
                    decreases chunks@.len() - ci2,
                {
                    let col = chunk_next(&mut chunks, ci2);
                    proof {
                        assert(col@ == chunks0[ci2 as int].arrays@[0]@);
                    }
                    columns.push(col);
                    ci2 += 1;
                }
                proof {
                    assert(chunks_advanced(chunks0, chunks@));
                    assert forall|k: int| 0 <= k < columns.deep_view().len() implies #[trigger] columns.deep_view()[k]
                        == chunk_heads(chunks0)[k] by {
                        assert(columns.deep_view()[k] == columns@[k]@);
                    }
                    assert(columns.deep_view() =~= chunk_heads(chunks0));
                }
                let mut data_block = match DataBlock::create(columns) {
                    Ok(b) => b,
                    Err(_) => {
                        return Err(EngineError::internal(String::from_str(
                            "chunks differ in row count",
                        )));
                    },
                };
                let ghost assembled = chunk_heads(chunks0);
                // Apply the predicate, if any.
                if let Option::Some(filter) = &self.prewhere_filter {
                    if data_block.num_rows() > u32::MAX as usize {
                        return Err(EngineError::bad_arguments(String::from_str(
                            "block too tall to filter",
                        )));
                    }
                    let rows = data_block.num_rows();
                    let mut pred_values: Vec<Value> = Vec::new();
                    let mut r2: usize = 0;
                    while r2 < rows
                        invariant
                            0 <= r2 <= rows,
                            rows == data_block.rows() <= u32::MAX,
                            data_block.wf(),
                            data_block@ == assembled,
                            pred_values@.len() == r2,
                            forall|t: int|
                                0 <= t < r2 ==> (#[trigger] pred_values@[t])@ == predicate_values(
                                    *filter,
                                    assembled,
                                )[t],
                        decreases rows - r2,
                    {
                        let verdict = eval_row_exec(filter, &data_block, r2);
                        let keep = match verdict {
                            Option::Some(Value::Boolean(true)) => true,
                            _ => false,
                        };
                        proof {
                            let sv = eval_row(*filter, assembled, r2 as int);
                            match verdict {
                                Option::Some(v) => {
                                    assert(sv == Option::Some(v@));
                                    if v@ == ValueView::Boolean(true) {
                                        assert(v == Value::Boolean(true));
                                    }
                                },
                                Option::None => {
                                    assert(sv is None);
                                },
                            }
                            assert(keep == (sv == Option::Some(ValueView::Boolean(true))));
                        }
                        pred_values.push(Value::Boolean(keep));
                        r2 += 1;
                    }
                    let predicate = Column {
                        name: String::from_str("predicate"),
                        data_type: DataType { id: TypeID::Boolean, nullable: false },
                        values: pred_values,
                    };
                    proof {
                        assert forall|t: int| 0 <= t < predicate@.values.len() implies #[trigger] predicate@.values[t]
                            == predicate_values(*filter, assembled)[t] by {
                            assert(predicate@.values[t] == predicate.values@[t]@);
                        }
                        assert(predicate@.values =~= predicate_values(*filter, assembled));
                        assert(predicate@.values.len() == data_block.rows());
                    }
                    data_block = match data_block.filter(&predicate) {
                        Ok(b) => b,
                        Err(e) => {
                            proof {
                                assert(false);
                            }
                            return Err(e);
                        },
                    };
                    proof {
                        assert(old(self).prewhere_filter == Option::Some(*filter));
                        assert(data_block@ == filtered_heads(
                            old(self).prewhere_filter,
                            assembled,
                        ));
                    }
                }
                let ghost fb = filtered_heads(old(self).prewhere_filter, assembled);
                proof {
                    assert(data_block@ == fb);
                }
                // Account the scan and permute to the output schema.
                let produced = data_block.num_rows();
                let bytes = data_block.memory_size();
                self.scan_rows = if produced as u64 <= u64::MAX - self.scan_rows {
                    self.scan_rows + produced as u64
                } else {
                    u64::MAX
                };
                self.scan_bytes = if bytes as u64 <= u64::MAX - self.scan_bytes {
                    self.scan_bytes + bytes as u64
                } else {
                    u64::MAX
                };
                let block = match data_block.resort(&self.output_fields) {
                    Ok(b) => b,
                    Err(e) => {
                        return Err(e);
                    },
                };
                proof {
                    assert(block@ =~= resorted_view(fb, old(self).output_fields@));
                }
                self.state = SourceState::Generated(block, chunks);
                Ok(())
            },
            _ => Err(EngineError::internal(String::from_str("It's a bug."))),
        }
    }
}

/// Take the next batch from one chunk of the list, leaving the other
/// chunks as they are.
fn chunk_next(chunks: &mut Vec<ChunkData>, ci: usize) -> (r: Column)
    requires
        ci < old(chunks)@.len(),
        old(chunks)@[ci as int].arrays@.len() > 0,
    ensures
        final(chunks)@.len() == old(chunks)@.len(),
        r == old(chunks)@[ci as int].arrays@[0],
        forall|j: int|
            0 <= j < old(chunks)@.len() && j != ci ==> #[trigger] final(chunks)@[j] == old(
                chunks,
            )@[j],
        final(chunks)@[ci as int].index == old(chunks)@[ci as int].index,
        final(chunks)@[ci as int].arrays@ == old(chunks)@[ci as int].arrays@.drop_first(),
{
    let chunk = &mut chunks[ci];
    chunk.next_array()
}

impl Processor for FuseNativeSource {
    fn name(&self) -> String {
        String::from_str("FuseEngineSource")
    }

    fn event(&mut self, ports: &mut PortArena) -> (r: Result<Event, EngineError>) {
        if self.output < ports.ports.len() {
            self.source_event(ports)
        } else {
            Err(EngineError::internal(String::from_str("output port out of range")))
        }
    }

    fn process(&mut self, _ports: &mut PortArena) -> (r: Result<(), EngineError>) {
        match self.source_process() {
            Ok(()) => Ok(()),
            Err(e) => Err(e),
        }
    }
}

} // verus!
