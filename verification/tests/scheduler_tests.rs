use hetero_infer::{
    EngineConfig, ExecutionOutput, GenerationParams, Request, RequestId, RequestState, Scheduler,
    SchedulerTrait,
};

fn create_test_config() -> EngineConfig {
    EngineConfig {
        block_size: 16,
        max_num_blocks: 100,
        max_batch_size: 8,
        max_num_seqs: 32,
        max_model_len: 2048,
        max_total_tokens: 512,
        memory_threshold: 900_000,
        max_retry_attempts: 2,
        ..EngineConfig::default()
    }
}

fn create_test_request(id: RequestId, num_tokens: usize) -> Request {
    Request::new(id, vec![1; num_tokens], GenerationParams::default())
}

fn output(token: u32, seq_id: u64) -> ExecutionOutput {
    ExecutionOutput {
        next_tokens: vec![token],
        seq_ids: vec![seq_id],
    }
}

#[test]
fn test_add_request() {
    let config = create_test_config();
    let mut scheduler = Scheduler::new(config);

    let request = create_test_request(42, 32);
    let result = scheduler.add_request(request);

    assert_eq!(result.unwrap(), 1);
    assert!(scheduler.has_pending_work());
}

#[test]
fn test_add_request_returns_real_seq_id() {
    let config = create_test_config();
    let mut scheduler = Scheduler::new(config);

    let request = create_test_request(999, 16);
    let seq_id = scheduler.add_request(request).unwrap();

    assert_eq!(seq_id, 1);
}

#[test]
fn test_schedule_prefill_uses_returned_seq_id() {
    let config = create_test_config();
    let mut scheduler = Scheduler::new(config);

    let request = create_test_request(999, 16);
    let seq_id = scheduler.add_request(request).unwrap();

    let output = scheduler.schedule();
    assert_eq!(output.prefill_sequences.len(), 1);
    assert_eq!(output.prefill_sequences[0].seq_id, seq_id);
}

#[test]
fn test_pending_queue_does_not_count_toward_max_sequences() {
    let config = EngineConfig {
        max_num_seqs: 1,
        ..create_test_config()
    };
    let mut scheduler = Scheduler::new(config);

    let first = create_test_request(1, 16);
    let second = create_test_request(2, 16);

    assert!(scheduler.add_request(first).is_ok());
    assert!(scheduler.add_request(second).is_ok());
}

#[test]
fn test_add_request_sequence_ids_are_monotonic() {
    let config = create_test_config();
    let mut scheduler = Scheduler::new(config);

    let seq_id1 = scheduler.add_request(create_test_request(100, 8)).unwrap();
    let seq_id2 = scheduler.add_request(create_test_request(200, 8)).unwrap();

    assert_eq!(seq_id1, 1);
    assert_eq!(seq_id2, 2);
}

#[test]
fn test_schedule_prefill() {
    let config = create_test_config();
    let mut scheduler = Scheduler::new(config);

    let request = create_test_request(1, 32);
    scheduler.add_request(request).unwrap();

    let output = scheduler.schedule();

    assert_eq!(output.prefill_sequences.len(), 1);
    assert_eq!(output.decode_sequences.len(), 0);
}

#[test]
fn test_prefill_to_decode_transition() {
    let config = create_test_config();
    let mut scheduler = Scheduler::new(config);

    let request = create_test_request(1, 32);
    scheduler.add_request(request).unwrap();

    let output = scheduler.schedule();
    assert_eq!(output.prefill_sequences.len(), 1);

    let seq_id = output.prefill_sequences[0].seq_id;

    scheduler.update_sequences(&output_of(100, seq_id), 0);

    // Now in the decode phase, not in prefill.
    let seq = scheduler.get_sequence(seq_id).unwrap();
    assert_eq!(seq.request.state, RequestState::Decode);
    assert!(scheduler.is_in_exactly_one_queue(seq_id));
}

fn output_of(token: u32, seq_id: u64) -> ExecutionOutput {
    output(token, seq_id)
}

#[test]
fn test_decode_priority() {
    let config = create_test_config();
    let mut scheduler = Scheduler::new(config);

    let request1 = create_test_request(1, 16);
    scheduler.add_request(request1).unwrap();
    let output = scheduler.schedule();
    let seq_id = output.prefill_sequences[0].seq_id;

    scheduler.update_sequences(&output_of(100, seq_id), 0);

    let request2 = create_test_request(2, 16);
    scheduler.add_request(request2).unwrap();

    let output = scheduler.schedule();

    assert!(!output.decode_sequences.is_empty());
}

#[test]
fn test_completion() {
    let config = create_test_config();
    let mut scheduler = Scheduler::new(config);

    let mut request = create_test_request(1, 16);
    request.params.max_tokens = 2;
    scheduler.add_request(request).unwrap();

    let output = scheduler.schedule();
    let seq_id = output.prefill_sequences[0].seq_id;

    scheduler.update_sequences(&output_of(100, seq_id), 0);

    scheduler.schedule();
    scheduler.update_sequences(&output_of(101, seq_id), 0);

    let completed = scheduler.get_completed();
    assert_eq!(completed.len(), 1);
}

#[test]
fn test_decode_priority_with_small_batch_keeps_pending_request_queued() {
    let config = EngineConfig {
        max_batch_size: 1,
        max_total_tokens: 64,
        ..create_test_config()
    };
    let mut scheduler = Scheduler::new(config);

    let decode_request = create_test_request(1, 16);
    let pending_request = create_test_request(2, 16);

    scheduler.add_request(decode_request).unwrap();
    let output = scheduler.schedule();
    let decode_seq_id = output.prefill_sequences[0].seq_id;

    scheduler.update_sequences(&output_of(100, decode_seq_id), 0);

    let pending_seq_id = scheduler.add_request(pending_request).unwrap();
    let scheduled = scheduler.schedule();

    assert_eq!(scheduled.decode_sequences.len(), 1);
    assert_eq!(scheduled.prefill_sequences.len(), 0);
    assert_eq!(scheduled.decode_sequences[0].seq_id, decode_seq_id);
    assert!(scheduler.is_pending(pending_seq_id));
}

// ---- further scenarios ----

#[test]
fn scheduler_new_is_idle() {
    let scheduler = Scheduler::new(create_test_config());
    assert!(!scheduler.has_pending_work());
    assert_eq!(scheduler.num_active_sequences(), 0);
    assert_eq!(scheduler.get_memory_utilization(), 0);
}

#[test]
fn scheduler_prefill_allocates_blocks_and_completion_frees_them() {
    let mut scheduler = Scheduler::new(create_test_config());
    let mut request = create_test_request(7, 17);
    request.params.max_tokens = 1;
    scheduler.add_request(request).unwrap();

    let output = scheduler.schedule();
    assert_eq!(output.prefill_sequences.len(), 1);
    assert_eq!(output.total_tokens, 17);
    // 17 tokens in blocks of 16 take two of the 100 blocks.
    assert_eq!(scheduler.get_memory_utilization(), 20_000);

    let seq_id = output.prefill_sequences[0].seq_id;
    scheduler.update_sequences(&output_of(5, seq_id), 0);
    let completed = scheduler.get_completed();
    assert_eq!(completed.len(), 1);
    assert_eq!(completed[0].id, 7);
    assert_eq!(completed[0].output_tokens, vec![5]);
    assert_eq!(completed[0].state, RequestState::Completed);
    assert_eq!(scheduler.get_memory_utilization(), 0);
    assert!(!scheduler.has_pending_work());
}

#[test]
fn scheduler_eos_completes_early() {
    let mut scheduler = Scheduler::new(create_test_config());
    scheduler.add_request(create_test_request(3, 4)).unwrap();
    let output = scheduler.schedule();
    let seq_id = output.prefill_sequences[0].seq_id;
    scheduler.update_sequences(&output_of(2, seq_id), 2);
    let completed = scheduler.get_completed();
    assert_eq!(completed.len(), 1);
    assert_eq!(completed[0].output_tokens, vec![2]);
}

#[test]
fn scheduler_token_budget_leaves_request_pending() {
    let config = EngineConfig {
        max_total_tokens: 20,
        ..create_test_config()
    };
    let mut scheduler = Scheduler::new(config);
    let first = scheduler.add_request(create_test_request(1, 16)).unwrap();
    let second = scheduler.add_request(create_test_request(2, 16)).unwrap();
    let output = scheduler.schedule();
    assert_eq!(output.prefill_sequences.len(), 1);
    assert_eq!(output.prefill_sequences[0].seq_id, first);
    assert!(output.total_tokens <= 20);
    assert!(scheduler.is_pending(second));
    assert!(!scheduler.is_pending(first));
}

#[test]
fn scheduler_cancel_and_fail_by_request_id() {
    let mut scheduler = Scheduler::new(create_test_config());
    scheduler.add_request(create_test_request(10, 4)).unwrap();
    scheduler.add_request(create_test_request(11, 4)).unwrap();
    scheduler.schedule();
    assert!(scheduler.cancel_by_request_id(10));
    assert!(!scheduler.cancel_by_request_id(99));
    assert!(scheduler.fail_by_request_id(11, "boom"));
    let completed = scheduler.get_completed();
    assert_eq!(completed.len(), 2);
    assert_eq!(completed[0].state, RequestState::Failed("request cancelled by client".to_string()));
    assert_eq!(completed[1].state, RequestState::Failed("boom".to_string()));
    assert_eq!(scheduler.get_memory_utilization(), 0);
    assert!(!scheduler.has_pending_work());
}

#[test]
fn scheduler_fail_pending_requests_drains_queue() {
    let config = EngineConfig {
        max_total_tokens: 16,
        ..create_test_config()
    };
    let mut scheduler = Scheduler::new(config);
    scheduler.add_request(create_test_request(1, 16)).unwrap();
    scheduler.add_request(create_test_request(2, 16)).unwrap();
    scheduler.schedule();
    assert_eq!(scheduler.fail_pending_requests("stuck"), 1);
    let completed = scheduler.get_completed();
    assert_eq!(completed.len(), 1);
    assert_eq!(completed[0].id, 2);
    assert_eq!(completed[0].state, RequestState::Failed("stuck".to_string()));
}

#[test]
fn scheduled_batch_holds_the_counted_tokens() {
    let mut scheduler = Scheduler::new(create_test_config());
    scheduler.add_request(create_test_request(1, 5)).unwrap();
    scheduler.add_request(create_test_request(2, 3)).unwrap();
    let first = scheduler.schedule();
    let batch = hetero_infer::build_execution_batch(&first);
    assert_eq!(first.total_tokens, 8);
    assert_eq!(batch.total_tokens(), first.total_tokens as usize);
    assert_eq!(batch.seq_lens.iter().sum::<u32>(), first.total_tokens);
    assert_eq!(batch.seq_ids, vec![1, 2]);

    scheduler.update_sequences(
        &ExecutionOutput {
            next_tokens: vec![7, 8],
            seq_ids: vec![1, 2],
        },
        0,
    );
    let second = scheduler.schedule();
    let batch = hetero_infer::build_execution_batch(&second);
    assert_eq!(second.total_tokens, 2);
    assert_eq!(batch.total_tokens(), second.total_tokens as usize);
    assert_eq!(batch.input_tokens, vec![7, 8]);
}

#[test]
fn scheduled_sequences_are_distinct_and_hold_disjoint_blocks() {
    let mut scheduler = Scheduler::new(create_test_config());
    scheduler.add_request(create_test_request(1, 20)).unwrap();
    scheduler.add_request(create_test_request(2, 16)).unwrap();
    let first = scheduler.schedule();
    scheduler.update_sequences(
        &ExecutionOutput {
            next_tokens: vec![5, 6],
            seq_ids: vec![1, 2],
        },
        0,
    );
    scheduler.add_request(create_test_request(3, 40)).unwrap();
    let second = scheduler.schedule();
    assert_eq!(first.num_sequences(), 2);
    let all: Vec<_> = second
        .decode_sequences
        .iter()
        .chain(second.prefill_sequences.iter())
        .collect();
    let ids: Vec<u64> = all.iter().map(|s| s.seq_id).collect();
    assert_eq!(ids, vec![1, 2, 3]);
    let mut blocks: Vec<u32> = all.iter().flat_map(|s| s.get_block_table()).collect();
    let held = blocks.len();
    blocks.sort();
    blocks.dedup();
    assert_eq!(blocks.len(), held);
    assert_eq!(held, 2 + 2 + 3);
}
