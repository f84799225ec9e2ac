use hetero_infer::gpu_executor::{GPUBatchData, PinnedBuffer};
use hetero_infer::{
    build_execution_batch, EngineConfig, ExecutionBatch, ExecutionError, GPUExecutorTrait,
    GenerationParams, MockGPUExecutor, Request, SchedulerOutput, Sequence,
};
use std::sync::Arc;

fn create_test_config() -> EngineConfig {
    EngineConfig {
        block_size: 16,
        max_num_blocks: 100,
        max_batch_size: 8,
        max_num_seqs: 32,
        max_model_len: 2048,
        max_total_tokens: 512,
        memory_threshold: 900_000,
        max_retry_attempts: 2,
        ..EngineConfig::default()
    }
}

#[test]
fn test_mock_executor_creation() {
    let config = create_test_config();
    let executor = MockGPUExecutor::new(config, 32000);

    assert!(!executor.has_captured_graph());
}

#[test]
fn test_mock_executor_execute_empty() {
    let config = create_test_config();
    let mut executor = MockGPUExecutor::new(config, 32000);

    let batch = ExecutionBatch::default();
    let result = executor.execute(&batch);

    assert!(result.is_ok());
    let output = result.unwrap();
    assert!(output.next_tokens.is_empty());
}

#[test]
fn test_mock_executor_execute_batch() {
    let config = create_test_config();
    let mut executor = MockGPUExecutor::new(config, 32000);

    let batch = ExecutionBatch {
        input_tokens: vec![1, 2, 3, 4, 5],
        positions: vec![0, 1, 2, 3, 4],
        seq_lens: vec![3, 2],
        block_tables: vec![vec![0, 1], vec![2]],
        is_prefill: vec![true, true],
        seq_ids: vec![1, 2],
        context_lens: vec![3, 2],
    };

    let result = executor.execute(&batch);
    assert!(result.is_ok());

    let output = result.unwrap();
    assert_eq!(output.next_tokens.len(), 2);
    assert_eq!(output.seq_ids.len(), 2);
}

#[test]
fn test_cuda_graph_capture() {
    let config = create_test_config();
    let mut executor = MockGPUExecutor::new(config, 32000);

    assert!(!executor.has_captured_graph());

    executor.capture_decode_graph(4).unwrap();

    assert!(executor.has_captured_graph());
}

#[test]
fn test_gpu_batch_data_prepare() {
    let mut batch_data = GPUBatchData::new(8, 16);

    let batch = ExecutionBatch {
        input_tokens: vec![1, 2, 3],
        positions: vec![0, 1, 2],
        seq_lens: vec![3],
        block_tables: vec![vec![0, 1]],
        is_prefill: vec![true],
        seq_ids: vec![1],
        context_lens: vec![3],
    };

    batch_data.prepare(&batch);

    assert_eq!(batch_data.input_ids.len(), 3);
    assert_eq!(batch_data.positions.len(), 3);
    assert_eq!(batch_data.seq_lens.len(), 1);
}

#[test]
fn test_pinned_buffer() {
    let mut buffer: PinnedBuffer<u32> = PinnedBuffer::new(10);

    assert!(buffer.is_empty());

    buffer.push(1);
    buffer.push(2);
    buffer.push(3);

    assert_eq!(buffer.len(), 3);
    assert_eq!(buffer.as_slice(), &[1, 2, 3]);

    buffer.clear();
    assert!(buffer.is_empty());
}

#[test]
fn gpu_mock_tokens_count_from_one_hundred() {
    let config = create_test_config();
    let mut executor = MockGPUExecutor::new(config, 102);
    let batch = ExecutionBatch {
        input_tokens: vec![5, 6, 7],
        positions: vec![0, 1, 2],
        seq_lens: vec![1, 1, 1],
        block_tables: vec![vec![0], vec![1], vec![2]],
        is_prefill: vec![false, false, false],
        seq_ids: vec![10, 11, 12],
        context_lens: vec![1, 1, 1],
    };
    let output = executor.execute(&batch).unwrap();
    // Counter 100, 101, 102 modulo 102.
    assert_eq!(output.next_tokens, vec![100, 101, 0]);
    assert_eq!(output.seq_ids, vec![10, 11, 12]);
}

#[test]
fn gpu_batch_limits_are_checked() {
    let config = EngineConfig {
        max_batch_size: 1,
        ..create_test_config()
    };
    let mut executor = MockGPUExecutor::new(config, 100);
    let batch = ExecutionBatch {
        input_tokens: vec![1, 2],
        positions: vec![0, 0],
        seq_lens: vec![1, 1],
        block_tables: vec![vec![0], vec![1]],
        is_prefill: vec![true, true],
        seq_ids: vec![1, 2],
        context_lens: vec![1, 1],
    };
    match executor.execute(&batch) {
        Err(ExecutionError::KernelLaunchFailed(m)) => assert_eq!(m, "Batch size 2 exceeds max 1"),
        other => panic!("unexpected {:?}", other),
    }
    let config = EngineConfig {
        max_total_tokens: 2,
        ..create_test_config()
    };
    let mut executor = MockGPUExecutor::new(config, 100);
    let batch = ExecutionBatch {
        input_tokens: vec![1, 2, 3],
        positions: vec![0, 1, 2],
        seq_lens: vec![3],
        block_tables: vec![vec![0]],
        is_prefill: vec![true],
        seq_ids: vec![1],
        context_lens: vec![3],
    };
    match executor.execute(&batch) {
        Err(ExecutionError::KernelLaunchFailed(m)) => assert_eq!(m, "Total tokens 3 exceeds max 2"),
        other => panic!("unexpected {:?}", other),
    }
}

#[test]
fn gpu_graph_capture_errors() {
    let mut executor = MockGPUExecutor::new(create_test_config(), 100);
    match executor.execute_graph(&ExecutionBatch::default()) {
        Err(ExecutionError::KernelLaunchFailed(m)) => assert_eq!(m, "No CUDA graph captured"),
        other => panic!("unexpected {:?}", other),
    }
    match executor.capture_decode_graph(0) {
        Err(ExecutionError::KernelLaunchFailed(m)) => {
            assert_eq!(m, "Cannot capture graph with batch size 0")
        }
        other => panic!("unexpected {:?}", other),
    }
    executor.capture_decode_graph(2).unwrap();
    assert!(executor.execute_graph(&ExecutionBatch::default()).is_ok());
}

#[test]
fn gpu_prepare_pads_block_tables_and_sums_starts() {
    let mut batch_data = GPUBatchData::new(4, 3);
    let batch = ExecutionBatch {
        input_tokens: vec![1, 2, 3, 4],
        positions: vec![0, 1, 2, 7],
        seq_lens: vec![3, 1],
        block_tables: vec![vec![5, 6], vec![1, 2, 3, 4]],
        is_prefill: vec![true, false],
        seq_ids: vec![1, 2],
        context_lens: vec![3, 7],
    };
    batch_data.prepare(&batch);
    assert_eq!(batch_data.seq_start_locs.as_slice(), &[0, 3, 4]);
    assert_eq!(batch_data.block_tables.as_slice(), &[5, 6, 0, 1, 2, 3, 4]);
    assert_eq!(batch_data.context_lens.as_slice(), &[3, 7]);
    // A second batch replaces the first.
    let small = ExecutionBatch {
        input_tokens: vec![9],
        positions: vec![0],
        seq_lens: vec![1],
        block_tables: vec![vec![]],
        is_prefill: vec![true],
        seq_ids: vec![3],
        context_lens: vec![1],
    };
    batch_data.prepare(&small);
    assert_eq!(batch_data.input_ids.as_slice(), &[9]);
    assert_eq!(batch_data.block_tables.as_slice(), &[0, 0, 0]);
}

#[test]
fn gpu_build_execution_batch_lays_out_prefill_then_decode() {
    let params = GenerationParams::default();
    let prefill = Sequence::new(1, Request::new(10, vec![7, 8, 9], params));
    let mut decode_request = Request::new(11, vec![1, 2], params);
    decode_request.output_tokens = vec![42];
    let mut decode = Sequence::new(2, decode_request);
    decode.num_generated_tokens = 1;
    let output = SchedulerOutput {
        prefill_sequences: vec![Arc::new(prefill)],
        decode_sequences: vec![Arc::new(decode)],
        total_tokens: 4,
    };
    let batch = build_execution_batch(&output);
    assert_eq!(batch.input_tokens, vec![7, 8, 9, 42]);
    assert_eq!(batch.positions, vec![0, 1, 2, 3]);
    assert_eq!(batch.seq_lens, vec![3, 1]);
    assert_eq!(batch.is_prefill, vec![true, false]);
    assert_eq!(batch.seq_ids, vec![1, 2]);
    assert_eq!(batch.context_lens, vec![3, 3]);
    assert_eq!(batch.block_tables, vec![Vec::<u32>::new(), Vec::new()]);
}

#[test]
fn gpu_pinned_buffer_extend_and_slices() {
    let mut buffer = PinnedBuffer::from_vec(vec![1u32, 2]);
    buffer.extend(vec![3, 4]);
    assert_eq!(buffer.as_slice(), &[1, 2, 3, 4]);
    buffer.as_mut_slice()[0] = 9;
    assert_eq!(buffer.as_slice(), &[9, 2, 3, 4]);
}
