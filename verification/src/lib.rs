//! Paged KV-cache inference engine: continuous-batching scheduler, paged
//! block allocation, tokenization and batch execution.
pub mod config;
pub mod engine;
pub mod error;
pub mod gpu_executor;
pub mod kv_cache;
pub mod scheduler;
pub mod tokenizer;
pub mod text;
pub mod types;

pub use config::{EngineConfig, SpecialTokenIds};
pub use engine::{EngineMetrics, InferenceEngine, StepEvents};
pub use error::{
    ConfigError, EngineError, ExecutionError, MemoryError, SchedulerError, ValidationError,
};
pub use gpu_executor::{build_execution_batch, GPUExecutorTrait, MockGPUExecutor};
pub use kv_cache::{KVCacheManager, KVCacheManagerTrait};
pub use scheduler::{Scheduler, SchedulerTrait};
pub use tokenizer::{BoxedDecoder, IncrementalDecoder, SimpleTokenizer, TokenizerTrait};
pub use types::{
    BlockIdx, CompletedRequest, ExecutionBatch, ExecutionOutput, GenerationParams, LogicalBlock,
    MemoryStats, PhysicalBlockRef, Request, RequestId, RequestState, SchedulerOutput, SeqId,
    Sequence, TokenId,
};
