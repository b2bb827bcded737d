//! Cursor-driven export of finalized consensus blocks for bootstrap:
//! bounded batches, an absorbing terminal cursor, and a barrier against
//! the execution-state export cursor.
use vstd::prelude::*;
use crate::types::{Slot, slot_lt};

verus! {

/// A block identifier, carried as a plain number.
#[derive(Clone, Copy, PartialEq, Eq, Structural, Debug, Hash)]
pub struct BlockId {
    pub val: u64,
}

/// An opaque handle to the storage holding a block's data; forwarded
/// unchanged into the export unit.
#[derive(Clone, Copy, PartialEq, Eq, Structural, Debug)]
pub struct StorageRef {
    pub handle: u64,
}

/// What the consensus state knows of one block.
#[derive(Clone, Copy, PartialEq, Eq, Structural, Debug)]
pub enum BlockStatus {
    /// In the active graph, with its slot, finality flag and storage.
    Active { slot: Slot, is_final: bool, storage: StorageRef },
    /// Known but not active.
    Other,
}

/// A finalized block as handed to a bootstrapping peer.
#[derive(Clone, Copy, PartialEq, Eq, Structural, Debug)]
pub struct ExportActiveBlock {
    pub id: BlockId,
    pub slot: Slot,
    pub storage: StorageRef,
}

/// A batch of exported finalized blocks, in ascending slot order.
#[derive(Debug)]
pub struct BootstrapableGraph {
    pub final_blocks: Vec<ExportActiveBlock>,
}

/// Resumable position of a streaming export: nothing sent yet, last
/// slot fully sent, or terminated. `Finished` is absorbing.
#[derive(Clone, Copy, PartialEq, Eq, Structural, Debug)]
pub enum StreamingStep {
    Started,
    Ongoing(Slot),
    Finished(Option<Slot>),
}

impl StreamingStep {
    /// True exactly on the terminal state.
    pub fn finished(&self) -> (r: bool)
        ensures
            r == (*self is Finished),
    {
        match self {
            StreamingStep::Finished(_) => true,
            _ => false,
        }
    }
}

/// Typed failure of a read operation.
#[derive(Clone, Copy, PartialEq, Eq, Structural, Debug)]
pub enum ConsensusError {
    /// A block expected in the status map was missing: corrupted state.
    ContainerInconsistency(BlockId),
}

/// First status recorded for `id`, scanning from the front.
pub open spec fn status_of(sts: Seq<(BlockId, BlockStatus)>, id: BlockId) -> Option<BlockStatus>
    decreases sts.len(),
{
    if sts.len() == 0 {
        Option::None
    } else if sts[0].0 == id {
        Option::Some(sts[0].1)
    } else {
        status_of(sts.skip(1), id)
    }
}

/// The slot of `id` where it is recorded active and final.
pub open spec fn active_final_slot(sts: Seq<(BlockId, BlockStatus)>, id: BlockId) -> Option<Slot> {
    match status_of(sts, id) {
        Option::Some(BlockStatus::Active { slot, is_final, storage }) => if is_final {
            Option::Some(slot)
        } else {
            Option::None
        },
        _ => Option::None,
    }
}

/// A block at `slot` is still owed to a cursor at this position.
pub open spec fn beyond(cursor: StreamingStep, slot: Slot) -> bool {
    match cursor {
        StreamingStep::Started => true,
        StreamingStep::Ongoing(c) => slot_lt(c, slot),
        StreamingStep::Finished(_) => false,
    }
}

/// `id` qualifies for delivery: active, final, and not yet sent.
pub open spec fn eligible(
    sts: Seq<(BlockId, BlockStatus)>,
    cursor: StreamingStep,
    id: BlockId,
) -> bool {
    match active_final_slot(sts, id) {
        Option::Some(slot) => beyond(cursor, slot),
        Option::None => false,
    }
}

/// A still-owed, active and final required block exists at `slot`.
pub open spec fn exists_eligible_at(
    sts: Seq<(BlockId, BlockStatus)>,
    req: Seq<BlockId>,
    cursor: StreamingStep,
    slot: Slot,
) -> bool {
    exists|k: int|
        0 <= k < req.len() && eligible(sts, cursor, #[trigger] req[k]) && active_final_slot(
            sts,
            req[k],
        ) == Option::Some(slot)
}

/// Read-only snapshot of the consensus state, as much of it as the
/// export and lookup operations consult.
#[derive(Debug)]
pub struct ConsensusState {
    /// Status of every known block.
    pub block_statuses: Vec<(BlockId, BlockStatus)>,
    /// Blocks required to reconstruct finalized state, in ascending
    /// order of their slots.
    pub required_active_blocks: Vec<BlockId>,
}

impl ConsensusState {
    /// The required list is ascending by slot over its active, final
    /// blocks.
    pub open spec fn wf(&self) -> bool {
        forall|p: int, q: int|
            0 <= p < q < self.required_active_blocks@.len() ==> match (
                active_final_slot(self.block_statuses@, #[trigger] self.required_active_blocks@[p]),
                active_final_slot(self.block_statuses@, #[trigger] self.required_active_blocks@[q]),
            ) {
                (Option::Some(sp), Option::Some(sq)) => slot_lt(sp, sq),
                _ => true,
            }
    }
}

/// Scans the status list for `id`.
fn lookup_status(sts: &Vec<(BlockId, BlockStatus)>, id: &BlockId) -> (r: Option<BlockStatus>)
    ensures
        r == status_of(sts@, *id),
{
    proof {
        assert(sts@.skip(0) =~= sts@);
    }
    let mut i: usize = 0;
    while i < sts.len()
        invariant
            i <= sts@.len(),
            status_of(sts@, *id) == status_of(sts@.skip(i as int), *id),
        decreases sts@.len() - i,
    {
        let p = sts[i];
        if p.0.val == id.val {
            proof {
                assert(sts@.skip(i as int)[0] == p);
            }
            return Some(p.1);
        }
        proof {
            assert(sts@.skip(i as int)[0] == p);
            assert(sts@.skip(i as int).skip(1) =~= sts@.skip(i as int + 1));
        }
        i = i + 1;
    }
    None
}

/// Statuses of a batch of blocks, one per queried id in the ids'
/// order; an id with no recorded status yields `None` in its place.
pub fn get_block_statuses(state: &ConsensusState, ids: &Vec<BlockId>) -> (r: Vec<
    Option<BlockStatus>,
>)
    ensures
        r@.len() == ids@.len(),
        forall|k: int|
            0 <= k < ids@.len() ==> r@[k] == status_of(state.block_statuses@, #[trigger] ids@[k]),
{
    let mut out: Vec<Option<BlockStatus>> = Vec::new();
    let mut i: usize = 0;
    while i < ids.len()
        invariant
            i <= ids@.len(),
            out@.len() == i,
            forall|k: int|
                0 <= k < i ==> out@[k] == status_of(state.block_statuses@, #[trigger] ids@[k]),
        decreases ids@.len() - i,
    {
        let st = lookup_status(&state.block_statuses, &ids[i]);
        out.push(st);
        i = i + 1;
    }
    out
}

/// Gathers the blocks owed to this cursor, in ascending slot order,
/// checking that every required block has a recorded status.
#[verifier::rlimit(100)]
fn collect_candidates(state: &ConsensusState, cursor: StreamingStep) -> (r: Result<
    Vec<ExportActiveBlock>,
    ConsensusError,
>)
    requires
        state.wf(),
        !(cursor is Finished),
    ensures
        match r {
            Err(e) => exists|k: int|
                0 <= k < state.required_active_blocks@.len() && status_of(
                    state.block_statuses@,
                    #[trigger] state.required_active_blocks@[k],
                ) is None,
            Ok(cands) => {
                &&& forall|k: int|
                    0 <= k < state.required_active_blocks@.len() ==> status_of(
                        state.block_statuses@,
                        #[trigger] state.required_active_blocks@[k],
                    ) is Some
                &&& forall|p: int, q: int|
                    0 <= p < q < cands@.len() ==> slot_lt(cands@[p].slot, cands@[q].slot)
                &&& forall|j: int|
                    0 <= j < cands@.len() ==> eligible(
                        state.block_statuses@,
                        cursor,
                        (#[trigger] cands@[j]).id,
                    ) && active_final_slot(state.block_statuses@, cands@[j].id) == Option::Some(
                        cands@[j].slot,
                    )
                &&& forall|k: int|
                    0 <= k < state.required_active_blocks@.len() && eligible(
                        state.block_statuses@,
                        cursor,
                        #[trigger] state.required_active_blocks@[k],
                    ) ==> exists|j: int|
                        0 <= j < cands@.len() && active_final_slot(
                            state.block_statuses@,
                            state.required_active_blocks@[k],
                        ) == Option::Some((#[trigger] cands@[j]).slot)
            },
        },
{
    let sts = &state.block_statuses;
    let req = &state.required_active_blocks;
    let mut cands: Vec<ExportActiveBlock> = Vec::new();
    let mut idx: usize = 0;
    while idx < req.len()
        invariant
            !(cursor is Finished),
            state.wf(),
            sts == state.block_statuses,
            req == state.required_active_blocks,
            idx <= req@.len(),
            forall|k: int|
                0 <= k < idx ==> status_of(sts@, #[trigger] req@[k]) is Some,
            forall|p: int, q: int|
                0 <= p < q < cands@.len() ==> slot_lt(cands@[p].slot, cands@[q].slot),
            forall|j: int|
                0 <= j < cands@.len() ==> exists|k: int|
                    0 <= k < idx && req@[k] == (#[trigger] cands@[j]).id && active_final_slot(
                        sts@,
                        req@[k],
                    ) == Option::Some(cands@[j].slot) && beyond(cursor, cands@[j].slot),
            forall|k: int|
                0 <= k < idx && eligible(sts@, cursor, #[trigger] req@[k]) ==> exists|j: int|
                    0 <= j < cands@.len() && active_final_slot(sts@, req@[k]) == Option::Some(
                        (#[trigger] cands@[j]).slot,
                    ),
        decreases req@.len() - idx,
    {
        let id = req[idx];
        match lookup_status(sts, &id) {
            None => {
                proof {
                    assert(status_of(sts@, req@[idx as int]) is None);
                }
                return Err(ConsensusError::ContainerInconsistency(id));
            },
            Some(BlockStatus::Active { slot, is_final, storage }) => {
                let owed = match cursor {
                    StreamingStep::Started => true,
                    StreamingStep::Ongoing(c) => c.lt(&slot),
                    StreamingStep::Finished(_) => false,
                };
                proof {
                    if !(is_final && owed) {
                        assert(!eligible(sts@, cursor, req@[idx as int]));
                    }
                }
                if is_final && owed {
                    let ghost c0 = cands@;
                    cands.push(ExportActiveBlock { id, slot, storage });
                    proof {
                        assert(forall|j: int| 0 <= j < c0.len() ==> cands@[j] == c0[j]);
                        assert(cands@.last().id == req@[idx as int]);
                        assert(cands@[cands@.len() - 1].slot == slot);
                        assert(active_final_slot(sts@, req@[idx as int]) == Option::Some(slot));
                        assert forall|p: int, q: int|
                            0 <= p < q < cands@.len() implies slot_lt(
                            cands@[p].slot,
                            cands@[q].slot,
                        ) by {
                            if q == cands@.len() - 1 {
                                let k = choose|k: int|
                                    0 <= k < idx && req@[k] == (#[trigger] c0[p]).id
                                        && active_final_slot(sts@, req@[k]) == Option::Some(
                                        c0[p].slot,
                                    ) && beyond(cursor, c0[p].slot);
                                assert(slot_lt(c0[p].slot, slot));
                            }
                        }
                    }
                }
            },
            Some(BlockStatus::Other) => {
                proof {
                    assert(!eligible(sts@, cursor, req@[idx as int]));
                }
            },
        }
        idx = idx + 1;
    }
    proof {
        assert forall|j: int| 0 <= j < cands@.len() implies eligible(
            sts@,
            cursor,
            (#[trigger] cands@[j]).id,
        ) && active_final_slot(sts@, cands@[j].id) == Option::Some(cands@[j].slot) by {
            let k = choose|k: int|
                0 <= k < idx && req@[k] == (#[trigger] cands@[j]).id && active_final_slot(
                    sts@,
                    req@[k],
                ) == Option::Some(cands@[j].slot) && beyond(cursor, cands@[j].slot);
        }
    }
    Ok(cands)
}

/// Fills a batch from the front of the ascending candidate list,
/// stopping at the size cap or at the execution barrier, and advances
/// the cursor.
#[verifier::rlimit(100)]
fn build_batch(
    cands: &Vec<ExportActiveBlock>,
    cursor: StreamingStep,
    execution_cursor: StreamingStep,
    max_batch: u64,
) -> (r: (Vec<ExportActiveBlock>, StreamingStep))
    requires
        !(cursor is Finished),
        forall|p: int, q: int| 0 <= p < q < cands@.len() ==> slot_lt(cands@[p].slot, cands@[q].slot),
    ensures
        ({
            let batch = r.0@;
            let next = r.1;
            &&& batch.len() <= max_batch
            &&& batch.len() <= cands@.len()
            &&& forall|j: int| 0 <= j < batch.len() ==> batch[j] == cands@[j]
            &&& (batch.len() == 0 ==> next == cursor)
            &&& (batch.len() > 0 ==> (next == StreamingStep::Ongoing(batch.last().slot) || next
                == StreamingStep::Finished(Option::Some(batch.last().slot))))
            &&& (match next {
                StreamingStep::Finished(o) => match o {
                    Option::Some(es) => execution_cursor == StreamingStep::Finished(
                        Option::Some(es),
                    ) && batch.len() > 0 && batch.last().slot == es,
                    Option::None => false,
                },
                _ => true,
            })
            &&& (match execution_cursor {
                StreamingStep::Finished(Option::Some(es)) => {
                    &&& ((exists|j: int|
                        0 <= j < batch.len() && (#[trigger] batch[j]).slot == es) ==> next
                        == StreamingStep::Finished(Option::Some(es)))
                    &&& ((exists|m: int|
                        0 <= m < cands@.len() && (#[trigger] cands@[m]).slot == es)
                        ==> forall|j: int|
                        0 <= j < batch.len() ==> !slot_lt(es, (#[trigger] batch[j]).slot))
                },
                _ => true,
            })
            &&& forall|m: int|
                #![trigger cands@[m]]
                batch.len() <= m < cands@.len() ==> (batch.len() == max_batch || (match next {
                    StreamingStep::Finished(Option::Some(es)) => slot_lt(es, cands@[m].slot),
                    _ => false,
                }))
        }),
{
    let mut batch: Vec<ExportActiveBlock> = Vec::new();
    let mut next = cursor;
    let mut stop: bool = false;
    let mut k: usize = 0;
    while k < cands.len() && !stop && (batch.len() as u64) < max_batch
        invariant
            !(cursor is Finished),
            k <= cands@.len(),
            batch@ == cands@.take(k as int),
            batch@.len() <= max_batch,
            forall|p: int, q: int|
                0 <= p < q < cands@.len() ==> slot_lt(cands@[p].slot, cands@[q].slot),
            stop ==> k > 0 && (match execution_cursor {
                StreamingStep::Finished(Option::Some(es)) => cands@[k - 1].slot == es && next
                    == StreamingStep::Finished(Option::Some(es)),
                _ => false,
            }),
            !stop ==> (if k == 0 {
                next == cursor
            } else {
                next == StreamingStep::Ongoing(cands@[k - 1].slot)
            }),
            !stop ==> (match execution_cursor {
                StreamingStep::Finished(Option::Some(es)) => forall|j: int|
                    0 <= j < k ==> (#[trigger] cands@[j]).slot != es,
                _ => true,
            }),
            match execution_cursor {
                StreamingStep::Finished(Option::Some(es)) => (exists|m: int|
                    0 <= m < cands@.len() && (#[trigger] cands@[m]).slot == es) ==> forall|j: int|
                    0 <= j < k ==> !slot_lt(es, (#[trigger] cands@[j]).slot),
                _ => true,
            },
        decreases cands@.len() - k,
    {
        let b = cands[k];
        batch.push(b);
        let mut hit: bool = false;
        match execution_cursor {
            StreamingStep::Finished(Some(es)) => {
                if es.period == b.slot.period && es.thread == b.slot.thread {
                    next = StreamingStep::Finished(Some(b.slot));
                    stop = true;
                    hit = true;
                }
            },
            _ => {},
        }
        if !hit {
            next = StreamingStep::Ongoing(b.slot);
        }
        proof {
            assert(batch@ =~= cands@.take(k + 1));
            match execution_cursor {
                StreamingStep::Finished(Option::Some(es)) => {
                    if exists|m: int| 0 <= m < cands@.len() && (#[trigger] cands@[m]).slot == es {
                        let m = choose|m: int|
                            0 <= m < cands@.len() && (#[trigger] cands@[m]).slot == es;
                        assert(m >= k) by {
                            if m < k {
                                assert(cands@[m].slot != es);
                            }
                        }
                        assert(!slot_lt(es, cands@[k as int].slot)) by {
                            if m > k {
                                assert(slot_lt(cands@[k as int].slot, cands@[m].slot));
                            }
                        }
                    }
                },
                _ => {},
            }
        }
        k = k + 1;
    }
    proof {
        assert(k == cands@.len() || stop || batch@.len() == max_batch);
        assert(batch@.len() == k);
        assert(forall|j: int| 0 <= j < k ==> batch@[j] == cands@[j]);
        assert(batch@.len() > 0 ==> batch@.last() == cands@[k - 1]);
        match execution_cursor {
            StreamingStep::Finished(Option::Some(es)) => {
                if exists|j: int| 0 <= j < batch@.len() && (#[trigger] batch@[j]).slot == es {
                    let j = choose|j: int|
                        0 <= j < batch@.len() && (#[trigger] batch@[j]).slot == es;
                    if !stop {
                        assert(cands@[j].slot != es);
                    }
                    assert(next == StreamingStep::Finished(Option::Some(es)));
                }
            },
            _ => {},
        }
        assert forall|m: int|
            #![trigger cands@[m]]
            batch@.len() <= m < cands@.len() implies (batch@.len() == max_batch || (match next {
            StreamingStep::Finished(Option::Some(es)) => slot_lt(es, cands@[m].slot),
            _ => false,
        })) by {
            if batch@.len() != max_batch {
                assert(stop);
                match execution_cursor {
                    StreamingStep::Finished(Option::Some(es)) => {
                        assert(m > k - 1);
                        assert(slot_lt(cands@[k - 1].slot, cands@[m].slot));
                        assert(next == StreamingStep::Finished(Option::Some(es)));
                    },
                    _ => {},
                }
            }
        }
    }
    (batch, next)
}

/// Computes one bootstrap batch from the state snapshot.
///
/// A `Finished` cursor is absorbing: the call returns an empty batch
/// and `Finished(None)` at once. Otherwise every required block must
/// have a recorded status — a missing one is a container inconsistency
/// — and the still-owed active final blocks are delivered in ascending
/// slot order, completely up to the size cap, stopping early, with a
/// `Finished` cursor, exactly at the slot where the execution export
/// has already finished.
#[verifier::rlimit(100)]
pub fn get_bootstrap_part(
    state: &ConsensusState,
    cursor: StreamingStep,
    execution_cursor: StreamingStep,
    max_batch: u64,
) -> (r: Result<(BootstrapableGraph, StreamingStep), ConsensusError>)
    requires
        state.wf(),
    ensures
        match r {
            Err(e) => !(cursor is Finished) && exists|k: int|
                0 <= k < state.required_active_blocks@.len() && status_of(
                    state.block_statuses@,
                    #[trigger] state.required_active_blocks@[k],
                ) is None,
            Ok(p) => {
                let batch = p.0.final_blocks@;
                &&& cursor is Finished ==> batch.len() == 0 && p.1 == StreamingStep::Finished(
                    Option::None,
                )
                &&& batch.len() <= max_batch
                &&& forall|i: int, j: int|
                    0 <= i < j < batch.len() ==> slot_lt(batch[i].slot, batch[j].slot)
                &&& forall|j: int|
                    0 <= j < batch.len() ==> eligible(
                        state.block_statuses@,
                        cursor,
                        (#[trigger] batch[j]).id,
                    ) && active_final_slot(state.block_statuses@, batch[j].id) == Option::Some(
                        batch[j].slot,
                    )
                &&& (match execution_cursor {
                    StreamingStep::Finished(Option::Some(es)) => (!(cursor is Finished)
                        && exists_eligible_at(
                        state.block_statuses@,
                        state.required_active_blocks@,
                        cursor,
                        es,
                    )) ==> forall|j: int|
                        0 <= j < batch.len() ==> !slot_lt(es, (#[trigger] batch[j]).slot),
                    _ => true,
                })
                &&& (!(cursor is Finished) && batch.len() == 0 ==> p.1 == cursor)
                &&& (batch.len() > 0 ==> (p.1 == StreamingStep::Ongoing(batch.last().slot) || p.1
                    == StreamingStep::Finished(Option::Some(batch.last().slot))))
                &&& (!(cursor is Finished) ==> forall|k: int|
                    0 <= k < state.required_active_blocks@.len() ==> status_of(
                        state.block_statuses@,
                        #[trigger] state.required_active_blocks@[k],
                    ) is Some)
                &&& (!(cursor is Finished) ==> forall|k: int|
                    0 <= k < state.required_active_blocks@.len()
                        ==> match active_final_slot(
                        state.block_statuses@,
                        #[trigger] state.required_active_blocks@[k],
                    ) {
                        Option::Some(sk) => beyond(cursor, sk) ==> {
                            ||| exists|j: int|
                                0 <= j < batch.len() && (#[trigger] batch[j]).slot == sk
                            ||| (batch.len() == max_batch && (forall|j: int|
                                0 <= j < batch.len() ==> slot_lt((#[trigger] batch[j]).slot, sk)))
                            ||| (match p.1 {
                                StreamingStep::Finished(Option::Some(es)) => slot_lt(es, sk),
                                _ => false,
                            })
                        },
                        Option::None => true,
                    })
                &&& (!(cursor is Finished) ==> match p.1 {
                    StreamingStep::Finished(o) => match o {
                        Option::Some(es) => execution_cursor == StreamingStep::Finished(
                            Option::Some(es),
                        ) && batch.len() > 0 && batch.last().slot == es,
                        Option::None => false,
                    },
                    _ => true,
                })
                &&& (match execution_cursor {
                    StreamingStep::Finished(Option::Some(es)) => (exists|j: int|
                        0 <= j < batch.len() && (#[trigger] batch[j]).slot == es) ==> p.1
                        == StreamingStep::Finished(Option::Some(es)),
                    _ => true,
                })
            },
        },
{
    if cursor.finished() {
        return Ok(
            (BootstrapableGraph { final_blocks: Vec::new() }, StreamingStep::Finished(None)),
        );
    }
    let ghost sts = state.block_statuses@;
    let ghost req = state.required_active_blocks@;
    match collect_candidates(state, cursor) {
        Err(e) => Err(e),
        Ok(cands) => {
            let (batch, next) = build_batch(&cands, cursor, execution_cursor, max_batch);
            proof {
                assert forall|i: int, j: int| 0 <= i < j < batch@.len() implies slot_lt(
                    batch@[i].slot,
                    batch@[j].slot,
                ) by {
                    assert(batch@[i] == cands@[i] && batch@[j] == cands@[j]);
                }
                assert forall|j: int| 0 <= j < batch@.len() implies eligible(
                    sts,
                    cursor,
                    (#[trigger] batch@[j]).id,
                ) && active_final_slot(sts, batch@[j].id) == Option::Some(batch@[j].slot) by {
                    assert(batch@[j] == cands@[j]);
                }
                match execution_cursor {
                    StreamingStep::Finished(Option::Some(es)) => {
                        if exists_eligible_at(sts, req, cursor, es) {
                            let kk = choose|kk: int|
                                0 <= kk < req.len() && eligible(sts, cursor, #[trigger] req[kk])
                                    && active_final_slot(sts, req[kk]) == Option::Some(es);
                            assert(exists|j: int|
                                0 <= j < cands@.len() && active_final_slot(sts, req[kk])
                                    == Option::Some((#[trigger] cands@[j]).slot));
                            assert(exists|m: int|
                                0 <= m < cands@.len() && (#[trigger] cands@[m]).slot == es);
                        }
                    },
                    _ => {},
                }
                assert forall|k: int|
                    0 <= k < req.len() implies match active_final_slot(sts, #[trigger] req[k]) {
                    Option::Some(sk) => beyond(cursor, sk) ==> {
                        ||| exists|j: int| 0 <= j < batch@.len() && (#[trigger] batch@[j]).slot == sk
                        ||| (batch@.len() == max_batch && (forall|j: int|
                            0 <= j < batch@.len() ==> slot_lt((#[trigger] batch@[j]).slot, sk)))
                        ||| (match next {
                            StreamingStep::Finished(Option::Some(es)) => slot_lt(es, sk),
                            _ => false,
                        })
                    },
                    Option::None => true,
                } by {
                    match active_final_slot(sts, req[k]) {
                        Option::Some(sk) => {
                            if beyond(cursor, sk) {
                                assert(eligible(sts, cursor, req[k]));
                                let m = choose|j: int|
                                    0 <= j < cands@.len() && active_final_slot(sts, req[k])
                                        == Option::Some((#[trigger] cands@[j]).slot);
                                assert(cands@[m].slot == sk);
                                if m < batch@.len() {
                                    assert(batch@[m] == cands@[m]);
                                    assert(batch@[m].slot == sk);
                                } else if batch@.len() != max_batch {
                                    assert(match next {
                                        StreamingStep::Finished(Option::Some(es)) => slot_lt(
                                            es,
                                            cands@[m].slot,
                                        ),
                                        _ => false,
                                    });
                                } else {
                                    assert forall|j: int| 0 <= j < batch@.len() implies slot_lt(
                                        (#[trigger] batch@[j]).slot,
                                        sk,
                                    ) by {
                                        assert(batch@[j] == cands@[j]);
                                        assert(slot_lt(cands@[j].slot, cands@[m].slot));
                                    }
                                }
                            }
                        },
                        Option::None => {},
                    }
                }
            }
            Ok((BootstrapableGraph { final_blocks: batch }, next))
        },
    }
}

} // verus!
