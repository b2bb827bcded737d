use ledger_export::types::Slot;
use ledger_export::bootstrap::{
    BlockId, BlockStatus, ConsensusError, ConsensusState, StorageRef, StreamingStep,
    get_block_statuses, get_bootstrap_part,
};

fn state_with_final_blocks(slots: &[u64]) -> ConsensusState {
    let mut block_statuses = Vec::new();
    let mut required_active_blocks = Vec::new();
    for (i, p) in slots.iter().enumerate() {
        let id = BlockId { val: i as u64 };
        block_statuses.push((
            id,
            BlockStatus::Active {
                slot: Slot { period: *p, thread: 0 },
                is_final: true,
                storage: StorageRef { handle: 100 + i as u64 },
            },
        ));
        required_active_blocks.push(id);
    }
    ConsensusState { block_statuses, required_active_blocks }
}

fn batch_periods(g: &ledger_export::bootstrap::BootstrapableGraph) -> Vec<u64> {
    g.final_blocks.iter().map(|b| b.slot.period).collect()
}

#[test]
fn batch_cap_paging() {
    let state = state_with_final_blocks(&[1, 2, 3, 4, 5]);
    let exec = StreamingStep::Started;
    let (g1, c1) = get_bootstrap_part(&state, StreamingStep::Started, exec, 2).unwrap();
    assert_eq!(batch_periods(&g1), vec![1, 2]);
    assert_eq!(c1, StreamingStep::Ongoing(Slot { period: 2, thread: 0 }));
    let (g2, c2) = get_bootstrap_part(&state, c1, exec, 2).unwrap();
    assert_eq!(batch_periods(&g2), vec![3, 4]);
    assert_eq!(c2, StreamingStep::Ongoing(Slot { period: 4, thread: 0 }));
    let (g3, c3) = get_bootstrap_part(&state, c2, exec, 2).unwrap();
    assert_eq!(batch_periods(&g3), vec![5]);
    assert_eq!(c3, StreamingStep::Ongoing(Slot { period: 5, thread: 0 }));
}

#[test]
fn finished_cursor_is_absorbing() {
    let state = state_with_final_blocks(&[1, 2, 3]);
    let cursor = StreamingStep::Finished(Some(Slot { period: 2, thread: 0 }));
    let (g, c) = get_bootstrap_part(&state, cursor, StreamingStep::Started, 100).unwrap();
    assert!(g.final_blocks.is_empty());
    assert_eq!(c, StreamingStep::Finished(None));
    let (g2, c2) = get_bootstrap_part(&state, c, StreamingStep::Started, 100).unwrap();
    assert!(g2.final_blocks.is_empty());
    assert_eq!(c2, StreamingStep::Finished(None));
}

#[test]
fn execution_cursor_barrier() {
    let state = state_with_final_blocks(&[1, 2, 3, 4, 5]);
    let exec = StreamingStep::Finished(Some(Slot { period: 3, thread: 0 }));
    let (g, c) = get_bootstrap_part(&state, StreamingStep::Started, exec, 100).unwrap();
    assert_eq!(batch_periods(&g), vec![1, 2, 3]);
    assert_eq!(c, StreamingStep::Finished(Some(Slot { period: 3, thread: 0 })));
    let (g2, c2) = get_bootstrap_part(&state, c, exec, 100).unwrap();
    assert!(g2.final_blocks.is_empty());
    assert_eq!(c2, StreamingStep::Finished(None));
}

#[test]
fn non_final_and_other_blocks_are_skipped() {
    let mut state = state_with_final_blocks(&[1, 3]);
    let id2 = BlockId { val: 10 };
    state.block_statuses.push((
        id2,
        BlockStatus::Active {
            slot: Slot { period: 2, thread: 0 },
            is_final: false,
            storage: StorageRef { handle: 0 },
        },
    ));
    state.required_active_blocks.push(id2);
    let id3 = BlockId { val: 11 };
    state.block_statuses.push((id3, BlockStatus::Other));
    state.required_active_blocks.push(id3);
    let (g, _) = get_bootstrap_part(&state, StreamingStep::Started, StreamingStep::Started, 100)
        .unwrap();
    assert_eq!(batch_periods(&g), vec![1, 3]);
}

#[test]
fn missing_required_block_is_inconsistency() {
    let mut state = state_with_final_blocks(&[1]);
    let ghost_id = BlockId { val: 99 };
    state.required_active_blocks.push(ghost_id);
    let r = get_bootstrap_part(&state, StreamingStep::Started, StreamingStep::Started, 100);
    assert_eq!(r.err(), Some(ConsensusError::ContainerInconsistency(ghost_id)));
}

#[test]
fn already_sent_blocks_are_not_resent() {
    let state = state_with_final_blocks(&[1, 2, 3]);
    let cursor = StreamingStep::Ongoing(Slot { period: 2, thread: 0 });
    let (g, c) = get_bootstrap_part(&state, cursor, StreamingStep::Started, 100).unwrap();
    assert_eq!(batch_periods(&g), vec![3]);
    assert_eq!(c, StreamingStep::Ongoing(Slot { period: 3, thread: 0 }));
}

#[test]
fn empty_eligible_set_keeps_cursor() {
    let state = state_with_final_blocks(&[1, 2]);
    let cursor = StreamingStep::Ongoing(Slot { period: 5, thread: 0 });
    let (g, c) = get_bootstrap_part(&state, cursor, StreamingStep::Started, 100).unwrap();
    assert!(g.final_blocks.is_empty());
    assert_eq!(c, cursor);
}

#[test]
fn block_statuses_follow_query_order() {
    let state = state_with_final_blocks(&[1, 2]);
    let ids = vec![BlockId { val: 1 }, BlockId { val: 99 }, BlockId { val: 0 }];
    let statuses = get_block_statuses(&state, &ids);
    assert_eq!(statuses.len(), 3);
    assert_eq!(
        statuses[0],
        Some(BlockStatus::Active {
            slot: Slot { period: 2, thread: 0 },
            is_final: true,
            storage: StorageRef { handle: 101 },
        })
    );
    assert_eq!(statuses[1], None);
    assert_eq!(
        statuses[2],
        Some(BlockStatus::Active {
            slot: Slot { period: 1, thread: 0 },
            is_final: true,
            storage: StorageRef { handle: 100 },
        })
    );
}
