use std::str::FromStr;

use hetero_infer::config::{TokenizerConfig, TokenizerKind};
use hetero_infer::engine::tokens_before_char;
use hetero_infer::tokenizer::HuggingFaceTokenizer;
use hetero_infer::{
    BoxedDecoder, EngineConfig, EngineError, ExecutionBatch, ExecutionError, ExecutionOutput,
    GPUExecutorTrait, GenerationParams, IncrementalDecoder, InferenceEngine, Scheduler,
    SimpleTokenizer, TokenId, TokenizerTrait, ValidationError,
};
use tokenizers::Tokenizer;

fn create_test_config() -> EngineConfig {
    EngineConfig {
        block_size: 16,
        max_num_blocks: 100,
        max_batch_size: 8,
        max_num_seqs: 32,
        max_model_len: 2048,
        max_total_tokens: 512,
        memory_threshold: 900_000,
        max_retry_attempts: 2,
        ..EngineConfig::default()
    }
}

fn engine_with(executor: Box<dyn GPUExecutorTrait>) -> InferenceEngine {
    let config = create_test_config();
    let scheduler = Scheduler::new(config.clone());
    InferenceEngine::with_components(config, Box::new(SimpleTokenizer::new()), scheduler, executor)
        .unwrap()
}

fn ok_output(batch: &ExecutionBatch, token: TokenId) -> ExecutionOutput {
    ExecutionOutput {
        next_tokens: vec![token; batch.seq_ids.len()],
        seq_ids: batch.seq_ids.clone(),
    }
}

/// Fails every batch.
struct AlwaysFailExecutor;

impl GPUExecutorTrait for AlwaysFailExecutor {
    fn execute(&mut self, _batch: &ExecutionBatch) -> Result<ExecutionOutput, ExecutionError> {
        Err(ExecutionError::KernelLaunchFailed("executor failure".to_string()))
    }
    fn capture_decode_graph(&mut self, _batch_size: u32) -> Result<(), ExecutionError> {
        Ok(())
    }
    fn execute_graph(&mut self, batch: &ExecutionBatch) -> Result<ExecutionOutput, ExecutionError> {
        self.execute(batch)
    }
    fn has_captured_graph(&self) -> bool {
        false
    }
}

/// Answers every sequence with the same token.
struct ConstantTokenExecutor {
    token: TokenId,
}

impl GPUExecutorTrait for ConstantTokenExecutor {
    fn execute(&mut self, batch: &ExecutionBatch) -> Result<ExecutionOutput, ExecutionError> {
        Ok(ok_output(batch, self.token))
    }
    fn capture_decode_graph(&mut self, _batch_size: u32) -> Result<(), ExecutionError> {
        Ok(())
    }
    fn execute_graph(&mut self, batch: &ExecutionBatch) -> Result<ExecutionOutput, ExecutionError> {
        self.execute(batch)
    }
    fn has_captured_graph(&self) -> bool {
        false
    }
}

/// Times out once, then answers.
struct TimeoutThenSuccessExecutor {
    attempts: u32,
}

impl GPUExecutorTrait for TimeoutThenSuccessExecutor {
    fn execute(&mut self, batch: &ExecutionBatch) -> Result<ExecutionOutput, ExecutionError> {
        if self.attempts == 0 {
            self.attempts += 1;
            Err(ExecutionError::GpuTimeout)
        } else {
            Ok(ok_output(batch, 123))
        }
    }
    fn capture_decode_graph(&mut self, _batch_size: u32) -> Result<(), ExecutionError> {
        Ok(())
    }
    fn execute_graph(&mut self, batch: &ExecutionBatch) -> Result<ExecutionOutput, ExecutionError> {
        self.execute(batch)
    }
    fn has_captured_graph(&self) -> bool {
        false
    }
}

/// Always times out, counting its calls.
struct AlwaysTimeoutExecutor {
    calls: std::sync::Arc<std::sync::Mutex<u32>>,
}

impl GPUExecutorTrait for AlwaysTimeoutExecutor {
    fn execute(&mut self, _batch: &ExecutionBatch) -> Result<ExecutionOutput, ExecutionError> {
        *self.calls.lock().unwrap() += 1;
        Err(ExecutionError::GpuTimeout)
    }
    fn capture_decode_graph(&mut self, _batch_size: u32) -> Result<(), ExecutionError> {
        Ok(())
    }
    fn execute_graph(&mut self, batch: &ExecutionBatch) -> Result<ExecutionOutput, ExecutionError> {
        self.execute(batch)
    }
    fn has_captured_graph(&self) -> bool {
        false
    }
}

/// Returns no tokens at all.
struct ShortOutputExecutor;

impl GPUExecutorTrait for ShortOutputExecutor {
    fn execute(&mut self, _batch: &ExecutionBatch) -> Result<ExecutionOutput, ExecutionError> {
        Ok(ExecutionOutput {
            next_tokens: Vec::new(),
            seq_ids: Vec::new(),
        })
    }
    fn capture_decode_graph(&mut self, _batch_size: u32) -> Result<(), ExecutionError> {
        Ok(())
    }
    fn execute_graph(&mut self, batch: &ExecutionBatch) -> Result<ExecutionOutput, ExecutionError> {
        self.execute(batch)
    }
    fn has_captured_graph(&self) -> bool {
        false
    }
}

struct AlwaysFailDecoder;

impl IncrementalDecoder for AlwaysFailDecoder {
    fn push(&mut self, _token: TokenId) -> Result<Option<String>, String> {
        Err("simulated incremental decode failure".to_string())
    }
    fn finish(&mut self) -> Result<Option<String>, String> {
        Ok(None)
    }
}

/// A tokenizer whose incremental decoder always fails.
struct FailingDecodeTokenizer(SimpleTokenizer);

impl TokenizerTrait for FailingDecodeTokenizer {
    fn try_encode(&self, text: &str) -> Result<Vec<TokenId>, String> {
        self.0.try_encode(text)
    }
    fn try_decode(&self, tokens: &[TokenId]) -> Result<String, String> {
        self.0.try_decode(tokens)
    }
    fn vocab_size(&self) -> u32 {
        self.0.vocab_size()
    }
    fn bos_token_id(&self) -> TokenId {
        self.0.bos_token_id()
    }
    fn eos_token_id(&self) -> TokenId {
        self.0.eos_token_id()
    }
    fn pad_token_id(&self) -> TokenId {
        self.0.pad_token_id()
    }
    fn create_decoder(&self) -> BoxedDecoder {
        BoxedDecoder::new(Box::new(AlwaysFailDecoder))
    }
}

/// Decodes token 0 to "好" (3 bytes), 1 to "A", 2 to "B".
struct FixedSegmentTokenizer;

struct NoopDecoder;

impl IncrementalDecoder for NoopDecoder {
    fn push(&mut self, _token: TokenId) -> Result<Option<String>, String> {
        Ok(None)
    }
    fn finish(&mut self) -> Result<Option<String>, String> {
        Ok(None)
    }
}

impl TokenizerTrait for FixedSegmentTokenizer {
    fn try_encode(&self, text: &str) -> Result<Vec<TokenId>, String> {
        if text.is_empty() {
            Ok(Vec::new())
        } else {
            Ok(vec![0])
        }
    }
    fn try_decode(&self, tokens: &[TokenId]) -> Result<String, String> {
        let mut s = String::new();
        for &t in tokens {
            match t {
                0 => s.push('好'),
                1 => s.push('A'),
                2 => s.push('B'),
                _ => s.push('?'),
            }
        }
        Ok(s)
    }
    fn vocab_size(&self) -> u32 {
        3
    }
    fn bos_token_id(&self) -> TokenId {
        0
    }
    fn eos_token_id(&self) -> TokenId {
        0
    }
    fn pad_token_id(&self) -> TokenId {
        0
    }
    fn create_decoder(&self) -> BoxedDecoder {
        BoxedDecoder::new(Box::new(NoopDecoder))
    }
}

#[test]
fn test_tokens_before_char_uses_byte_offset_for_unicode() {
    let tokens = vec![0u32, 1, 2];
    let tokenizer = FixedSegmentTokenizer;
    let keep = tokens_before_char(&tokens, &tokenizer, "好".len());
    assert_eq!(keep, 1, "only the first token (好) should be kept");
}

#[test]
fn test_engine_creation() {
    let config = create_test_config();
    let engine = InferenceEngine::new(config);

    assert!(engine.is_ok());
}

#[test]
fn test_engine_creation_fails_when_huggingface_tokenizer_file_is_missing() {
    let config = EngineConfig {
        tokenizer: TokenizerConfig {
            kind: TokenizerKind::HuggingFace,
            path: Some("/tmp/does-not-exist-tokenizer.json".into()),
        },
        ..create_test_config()
    };

    let engine = InferenceEngine::new(config);
    assert!(matches!(engine, Err(EngineError::Tokenization(_))));
}

const HF_JSON: &str = r###"{
  "version": "1.0",
  "truncation": null,
  "padding": null,
  "added_tokens": [],
  "normalizer": null,
  "pre_tokenizer": { "type": "Whitespace" },
  "post_processor": null,
  "decoder": { "type": "WordPiece", "prefix": "##", "cleanup": false },
  "model": {
    "type": "WordLevel",
    "vocab": { "[UNK]": 0, "hello": 1, "world": 2 },
    "unk_token": "[UNK]"
  }
}"###;

fn hf_engine(config: EngineConfig) -> InferenceEngine {
    let tokenizer = HuggingFaceTokenizer::from_tokenizer(Tokenizer::from_str(HF_JSON).unwrap());
    let scheduler = Scheduler::new(config.clone());
    let executor = Box::new(ConstantTokenExecutor { token: 2 });
    InferenceEngine::with_components(config, Box::new(tokenizer), scheduler, executor).unwrap()
}

#[test]
fn test_submit_request_uses_configured_huggingface_tokenizer() {
    let config = EngineConfig {
        max_model_len: 6,
        ..create_test_config()
    };
    let mut engine = hf_engine(config);

    let result = engine.submit_request(
        "hello world",
        GenerationParams {
            max_tokens: 1,
            ..GenerationParams::default()
        },
    );

    assert!(
        result.is_ok(),
        "configured HuggingFace tokenizer should be used"
    );
}

#[test]
fn test_cancel_request_stops_generation_and_surfaces_failure() {
    let mut engine = InferenceEngine::new(create_test_config()).unwrap();
    let request_id = engine
        .submit_request(
            "Hello world",
            GenerationParams {
                max_tokens: 50,
                ..GenerationParams::default()
            },
        )
        .unwrap();

    engine.step().unwrap();
    assert!(engine.has_pending_work());

    assert!(engine.cancel_request(request_id));

    let completed = engine.run();
    assert_eq!(completed.len(), 1);
    assert!(!completed[0].success);
    assert!(completed[0]
        .error
        .as_deref()
        .unwrap_or("")
        .contains("cancelled"));
    assert!(!engine.has_pending_work());

    assert!(!engine.cancel_request(999));
}

#[test]
fn test_submit_request() {
    let config = create_test_config();
    let mut engine = InferenceEngine::new(config).unwrap();

    let params = GenerationParams {
        max_tokens: 10,
        ..GenerationParams::default()
    };

    let result = engine.submit_request("Hello", params);
    assert!(result.is_ok());
    assert!(engine.has_pending_work());
}

#[test]
fn test_submit_empty_request() {
    let config = create_test_config();
    let mut engine = InferenceEngine::new(config).unwrap();

    let params = GenerationParams::default();
    let result = engine.submit_request("", params);

    assert!(result.is_err());
}

#[test]
fn test_submit_invalid_params() {
    let config = create_test_config();
    let mut engine = InferenceEngine::new(config).unwrap();

    let params = GenerationParams {
        max_tokens: 0,
        ..GenerationParams::default()
    };

    let result = engine.submit_request("Hello", params);
    assert!(result.is_err());
}

#[test]
fn test_submit_request_rejects_total_length_over_limit() {
    let config = EngineConfig {
        max_model_len: 8,
        ..create_test_config()
    };
    let mut engine = InferenceEngine::new(config).unwrap();

    let params = GenerationParams {
        max_tokens: 4,
        ..GenerationParams::default()
    };

    let result = engine.submit_request("Hello", params);
    assert!(matches!(
        result,
        Err(EngineError::Validation(ValidationError::TotalLengthTooLong(_, 8)))
    ));
}

#[test]
fn test_submit_request_allows_total_length_at_limit() {
    let config = EngineConfig {
        max_model_len: 11,
        ..create_test_config()
    };
    let mut engine = InferenceEngine::new(config).unwrap();

    let params = GenerationParams {
        max_tokens: 4,
        ..GenerationParams::default()
    };

    let result = engine.submit_request("Hello", params);
    assert!(result.is_ok());
}

#[test]
fn test_submit_request_rejects_prompt_too_long_before_generation_check() {
    let config = EngineConfig {
        max_model_len: 3,
        ..create_test_config()
    };
    let mut engine = InferenceEngine::new(config).unwrap();

    let result = engine.submit_request("Hello", GenerationParams::default());
    assert!(matches!(
        result,
        Err(EngineError::Validation(ValidationError::InputTooLong(_, 3)))
    ));
}

#[test]
fn test_step() {
    let config = create_test_config();
    let mut engine = InferenceEngine::new(config).unwrap();

    let params = GenerationParams {
        max_tokens: 5,
        ..GenerationParams::default()
    };

    engine.submit_request("Hi", params).unwrap();

    let mut completed = Vec::new();
    for _ in 0..10 {
        completed.extend(engine.step().unwrap());
    }

    assert_eq!(
        completed.len(),
        1,
        "request should complete within 10 steps"
    );
    assert!(completed[0].success);
    assert!(!engine.has_pending_work());
}

#[test]
fn test_completed_request_preserves_input_text() {
    let config = create_test_config();
    let mut engine = InferenceEngine::new(config).unwrap();

    engine
        .submit_request("Hello", GenerationParams::default())
        .unwrap();
    let completed = engine.run();

    assert_eq!(completed.len(), 1);
    assert_eq!(completed[0].input_text.as_deref(), Some("Hello"));
}

#[test]
fn test_run_to_completion() {
    let config = create_test_config();
    let mut engine = InferenceEngine::new(config).unwrap();

    let params = GenerationParams {
        max_tokens: 3,
        ..GenerationParams::default()
    };

    engine.submit_request("Test", params).unwrap();

    let completed = engine.run();
    assert_eq!(completed.len(), 1, "the submitted request must complete");
    assert!(completed[0].success);
    assert!(!engine.has_pending_work());
}

#[test]
fn test_run_oversized_prompt_fails_not_stranded() {
    // 1000 characters are 1002 tokens with BOS and EOS, 63 blocks of 16,
    // over the watermark of floor(64 * 0.9) = 57 blocks.
    let config = EngineConfig {
        max_num_blocks: 64,
        max_total_tokens: 1024,
        ..create_test_config()
    };
    let mut engine = InferenceEngine::new(config).unwrap();

    engine
        .submit_request(
            &"a".repeat(1000),
            GenerationParams {
                max_tokens: 4,
                ..GenerationParams::default()
            },
        )
        .unwrap();

    let completed = engine.run();
    assert_eq!(completed.len(), 1, "请求不能被遗留，必须返回失败终态");
    assert!(!completed[0].success, "超预算请求应失败");
    let err = completed[0].error.as_ref().expect("失败请求应有错误信息");
    assert!(
        err.contains("watermark"),
        "错误应说明水位线限制，实际: {err}"
    );
    assert!(!engine.has_pending_work(), "run() 后不应残留 pending");
}

#[test]
fn test_multiple_requests() {
    let config = create_test_config();
    let mut engine = InferenceEngine::new(config).unwrap();

    let params = GenerationParams {
        max_tokens: 2,
        ..GenerationParams::default()
    };

    for i in 0..3 {
        engine
            .submit_request(&format!("Request {}", i), params)
            .unwrap();
    }

    let completed = engine.run();
    assert_eq!(completed.len(), 3, "all three requests must complete");
    assert!(completed.iter().all(|c| c.success));
    assert!(!engine.has_pending_work());
}

#[test]
fn test_executor_failure_marks_request_failed_and_clears_pending_work() {
    let mut engine = engine_with(Box::new(AlwaysFailExecutor));

    engine
        .submit_request("Hello", GenerationParams::default())
        .unwrap();

    let completed = engine.run();

    assert_eq!(completed.len(), 1);
    assert!(!completed[0].success);
    assert!(completed[0].error.is_some());
    assert!(!engine.has_pending_work());
}

#[test]
fn test_executor_failure_updates_failure_metrics() {
    let mut engine = engine_with(Box::new(AlwaysFailExecutor));

    engine
        .submit_request("Hello", GenerationParams::default())
        .unwrap();
    let _ = engine.run();

    let metrics = engine.get_metrics();
    assert_eq!(metrics.failed_requests, 1);
    assert_eq!(metrics.completed_requests, 0);
}

#[test]
fn test_gpu_timeout_retries_once_then_succeeds() {
    let mut engine = engine_with(Box::new(TimeoutThenSuccessExecutor { attempts: 0 }));

    engine
        .submit_request("Hello", GenerationParams::default())
        .unwrap();
    let completed = engine.run();

    assert_eq!(completed.len(), 1);
    assert!(completed[0].success);
    assert!(completed[0].error.is_none());

    let metrics = engine.get_metrics();
    assert_eq!(metrics.failed_requests, 0);
    assert_eq!(metrics.completed_requests, 1);
}

#[test]
fn test_streaming_chunks_concat_equals_final_output() {
    let config = create_test_config();
    let mut engine = InferenceEngine::new(config).unwrap();

    let request_id = engine
        .submit_request(
            "Hello stream",
            GenerationParams {
                max_tokens: 8,
                ..GenerationParams::default()
            },
        )
        .unwrap();

    let mut streamed = String::new();
    let mut final_text = None;
    while engine.has_pending_work() {
        let events = engine.step_events().unwrap();
        for (rid, chunk) in &events.chunks {
            assert_eq!(*rid, request_id);
            streamed.push_str(chunk);
        }
        for completed in events.completed {
            assert_eq!(completed.request_id, request_id);
            assert!(completed.success);
            final_text = Some(completed.output_text);
        }
    }

    assert_eq!(streamed, final_text.expect("request must complete"));
    assert!(!streamed.is_empty());
    assert_eq!(
        engine.num_live_decoders(),
        0,
        "decoder state must be dropped on completion"
    );
}

#[test]
fn test_decoder_state_cleaned_up_on_cancel_and_failure() {
    let mut engine = InferenceEngine::new(create_test_config()).unwrap();
    let request_id = engine
        .submit_request(
            "cancel me",
            GenerationParams {
                max_tokens: 50,
                ..GenerationParams::default()
            },
        )
        .unwrap();
    engine.step().unwrap();
    assert_eq!(engine.num_live_decoders(), 1);

    assert!(engine.cancel_request(request_id));
    let completed = engine.run();
    assert_eq!(completed.len(), 1);
    assert!(!completed[0].success);
    assert_eq!(engine.num_live_decoders(), 0);

    let mut engine = engine_with(Box::new(AlwaysFailExecutor));
    engine
        .submit_request("fail me", GenerationParams::default())
        .unwrap();
    let completed = engine.run();
    assert_eq!(completed.len(), 1);
    assert!(!completed[0].success);
    assert_eq!(engine.num_live_decoders(), 0);
}

#[test]
fn test_decoder_push_failure_fails_request_honestly() {
    let config = create_test_config();
    let scheduler = Scheduler::new(config.clone());
    let mut engine = InferenceEngine::with_components(
        config,
        Box::new(FailingDecodeTokenizer(SimpleTokenizer::new())),
        scheduler,
        Box::new(ConstantTokenExecutor { token: 65 }),
    )
    .unwrap();

    engine
        .submit_request("decode failure", GenerationParams::default())
        .unwrap();
    let completed = engine.run();

    assert_eq!(completed.len(), 1);
    assert!(!completed[0].success);
    assert!(
        completed[0]
            .error
            .as_deref()
            .unwrap_or("")
            .contains("tokenizer decode failed"),
        "push failure must surface as tokenizer error, got {:?}",
        completed[0].error
    );
    assert_eq!(engine.num_live_decoders(), 0);
}

#[test]
fn test_streaming_equivalence_with_huggingface_decoder() {
    let config = EngineConfig {
        max_model_len: 64,
        ..create_test_config()
    };
    let mut engine = hf_engine(config);

    let request_id = engine
        .submit_request(
            "hello world",
            GenerationParams {
                max_tokens: 4,
                ..GenerationParams::default()
            },
        )
        .unwrap();

    let mut streamed = String::new();
    let mut final_text = None;
    while engine.has_pending_work() {
        let events = engine.step_events().unwrap();
        for (rid, chunk) in &events.chunks {
            assert_eq!(*rid, request_id);
            streamed.push_str(chunk);
        }
        for completed in events.completed {
            final_text = Some(completed.output_text);
        }
    }

    assert_eq!(streamed, final_text.expect("request must complete"));
    assert_eq!(engine.num_live_decoders(), 0);
}

#[test]
fn test_gpu_timeout_exhausts_retries_then_fails_request() {
    let calls = std::sync::Arc::new(std::sync::Mutex::new(0));
    let mut engine = engine_with(Box::new(AlwaysTimeoutExecutor {
        calls: calls.clone(),
    }));

    engine
        .submit_request("Hello", GenerationParams::default())
        .unwrap();
    let completed = engine.run();

    assert_eq!(completed.len(), 1);
    assert!(!completed[0].success);
    assert!(
        completed[0].error.as_deref().unwrap_or("").contains("GPU"),
        "error should surface the GPU timeout, got {:?}",
        completed[0].error
    );
    assert!(!engine.has_pending_work());

    let metrics = engine.get_metrics();
    assert_eq!(metrics.failed_requests, 1);
    assert_eq!(metrics.completed_requests, 0);
    // One attempt and max_retry_attempts retries.
    assert_eq!(*calls.lock().unwrap(), 3);
}

// ---- further scenarios ----

#[test]
fn engine_request_ids_count_up_from_one() {
    let mut engine = InferenceEngine::new(create_test_config()).unwrap();
    let params = GenerationParams {
        max_tokens: 1,
        ..GenerationParams::default()
    };
    assert_eq!(engine.submit_request("a", params).unwrap(), 1);
    assert!(engine.submit_request("", params).is_err());
    assert_eq!(engine.submit_request("b", params).unwrap(), 2);
    assert_eq!(engine.get_metrics().total_requests, 2);
}

#[test]
fn engine_output_without_tokens_leaves_request_active() {
    let mut engine = engine_with(Box::new(ShortOutputExecutor));
    engine
        .submit_request("Hello", GenerationParams::default())
        .unwrap();
    for _ in 0..3 {
        assert!(engine.step().unwrap().is_empty());
    }
    assert!(engine.has_pending_work());
    assert!(engine.memory_utilization() > 0);
}

#[test]
fn engine_constant_eos_completes_after_one_token() {
    // The simple tokenizer's EOS is 2.
    let mut engine = engine_with(Box::new(ConstantTokenExecutor { token: 2 }));
    engine
        .submit_request("Hello", GenerationParams::default())
        .unwrap();
    let completed = engine.run();
    assert_eq!(completed.len(), 1);
    assert!(completed[0].success);
    assert_eq!(completed[0].output_tokens, vec![2]);
    assert_eq!(completed[0].output_text, "");
    assert_eq!(engine.memory_utilization(), 0);
}

#[test]
fn engine_max_steps_bounds_run() {
    let mut engine = InferenceEngine::new(create_test_config()).unwrap();
    engine.set_max_steps(2);
    engine
        .submit_request(
            "Hello",
            GenerationParams {
                max_tokens: 50,
                ..GenerationParams::default()
            },
        )
        .unwrap();
    let completed = engine.run();
    assert!(completed.is_empty());
    assert!(engine.has_pending_work());
    engine.stop();
    assert!(engine.run().is_empty());
}

#[test]
fn engine_fail_pending_requests_reports_them() {
    let mut engine = InferenceEngine::new(create_test_config()).unwrap();
    let params = GenerationParams {
        max_tokens: 3,
        ..GenerationParams::default()
    };
    engine.submit_request("one", params).unwrap();
    engine.submit_request("two", params).unwrap();
    assert_eq!(engine.fail_pending_requests("shutting down"), 2);
    let completed = engine.step().unwrap();
    assert_eq!(completed.len(), 2);
    assert!(completed.iter().all(|c| !c.success));
    assert_eq!(completed[0].error.as_deref(), Some("shutting down"));
    assert!(!engine.has_pending_work());
}

#[test]
fn completed_report_follows_state_and_decoding() {
    let mut done = hetero_infer::Request::new(5, vec![1, 2], GenerationParams::default());
    done.output_tokens = vec![40, 41];
    done.state = hetero_infer::RequestState::Completed;
    let ok = hetero_infer::engine::completed_report(&done, Some("in".to_string()), Ok("hi".to_string()));
    assert_eq!(ok.request_id, 5);
    assert!(ok.success);
    assert_eq!(ok.output_text, "hi");
    assert_eq!(ok.output_tokens, vec![40, 41]);
    assert_eq!(ok.error, None);
    assert_eq!(ok.input_text, Some("in".to_string()));

    let bad = hetero_infer::engine::completed_report(&done, None, Err("bad id".to_string()));
    assert!(!bad.success);
    assert_eq!(bad.output_text, "");
    assert_eq!(bad.error, Some("tokenizer decode failed: bad id".to_string()));

    let mut failed = hetero_infer::Request::new(6, vec![1], GenerationParams::default());
    failed.state = hetero_infer::RequestState::Failed("out of blocks".to_string());
    let f = hetero_infer::engine::completed_report(&failed, None, Ok("x".to_string()));
    assert!(!f.success);
    assert_eq!(f.output_text, "x");
    assert_eq!(f.error, Some("out of blocks".to_string()));
}

#[test]
fn new_engine_builds_for_a_valid_simple_configuration() {
    assert!(InferenceEngine::new(create_test_config()).is_ok());
    let huge = EngineConfig {
        block_size: 1,
        max_model_len: u32::MAX,
        ..create_test_config()
    };
    assert!(matches!(InferenceEngine::new(huge), Err(EngineError::Execution(_))));
}
