//! Error types of the inference engine.
//!
//! ```text
//! EngineError
//!   ├── ConfigError
//!   ├── ValidationError
//!   ├── MemoryError
//!   ├── ExecutionError
//!   └── SchedulerError
//! ```
//!
//! Quantities that are fractions (thresholds, sampling parameters) are carried
//! as integers in millionths, see [`crate::config::PPM_ONE`].
use vstd::prelude::*;
use vstd::string::StringExecFns;

use crate::text::{
    concat_text, decimal, push_decimal, push_signed_decimal, signed_decimal, text_with_number,
    text_with_two_numbers,
};

verus! {

/// Errors of the paged KV cache.
#[derive(Debug, Clone, PartialEq)]
pub enum MemoryError {
    /// No free physical block is left.
    OutOfBlocks,
    /// The sequence has no page table.
    SequenceNotFound(u64),
    /// A block could not be allocated.
    AllocationFailed(String),
    /// The block index is outside the pool.
    InvalidBlockIndex(u32),
}

/// Errors of configuration validation and loading.
#[derive(Debug, Clone, PartialEq)]
pub enum ConfigError {
    InvalidBlockSize(u32),
    InvalidMaxNumBlocks(u32),
    InvalidMaxBatchSize(u32),
    InvalidMaxNumSeqs(u32),
    InvalidMaxModelLen(u32),
    InvalidMaxTotalTokens(u32),
    /// The threshold, in millionths, is outside `(0, 1_000_000]`.
    InvalidMemoryThreshold(i64),
    FileLoadError(String),
    FileSaveError(String),
    ParseError(String),
    MissingTokenizerPath,
    InvalidCommandProgram,
    InvalidServerPort(u16),
    InvalidModelName,
}

/// Errors of request validation.
#[derive(Debug, Clone, PartialEq)]
pub enum ValidationError {
    InvalidMaxTokens(u32),
    /// The temperature, in millionths, is outside `(0, 2_000_000]`.
    InvalidTemperature(i64),
    /// The top-p value, in millionths, is outside `(0, 1_000_000]`.
    InvalidTopP(i64),
    EmptyInput,
    /// Prompt length and the model's limit.
    InputTooLong(usize, u32),
    /// Prompt plus requested generation length, and the model's limit.
    TotalLengthTooLong(usize, u32),
}

/// Errors of batch execution.
#[derive(Debug, Clone, PartialEq)]
pub enum ExecutionError {
    CudaError(String),
    GpuTimeout,
    InvalidOutput,
    KernelLaunchFailed(String),
}

/// Errors of the scheduler.
#[derive(Debug, Clone, PartialEq)]
pub enum SchedulerError {
    /// Memory pressure, or the concurrent sequence limit is reached.
    MemoryPressure,
    RequestNotFound(u64),
    InvalidStateTransition(String),
}

/// Top-level error of the engine.
#[derive(Debug, Clone, PartialEq)]
pub enum EngineError {
    Config(ConfigError),
    Validation(ValidationError),
    Memory(MemoryError),
    Execution(ExecutionError),
    Scheduler(SchedulerError),
    Tokenization(String),
}


impl MemoryError {
    /// The error's message.
    pub open spec fn spec_message(&self) -> Seq<char> {
        match self {
            MemoryError::OutOfBlocks => "物理块耗尽：没有可用的空闲块"@,
            MemoryError::SequenceNotFound(id) => "序列不存在: "@ + decimal(*id as nat),
            MemoryError::AllocationFailed(msg) => "块分配失败: "@ + msg@,
            MemoryError::InvalidBlockIndex(i) => "无效的块索引: "@ + decimal(*i as nat),
        }
    }

    /// The error's message.
    pub fn message(&self) -> (r: String)
        ensures
            r@ == self.spec_message(),
    {
        match self {
            MemoryError::OutOfBlocks => String::from_str("物理块耗尽：没有可用的空闲块"),
            MemoryError::SequenceNotFound(id) => text_with_number("序列不存在: ", *id),
            MemoryError::AllocationFailed(msg) => concat_text("块分配失败: ", msg.as_str()),
            MemoryError::InvalidBlockIndex(i) => text_with_number("无效的块索引: ", *i as u64),
        }
    }
}

impl ConfigError {
    /// The error's message.
    pub open spec fn spec_message(&self) -> Seq<char> {
        match self {
            ConfigError::InvalidBlockSize(v) => "无效的 block_size: 必须大于 0，实际值为 "@ + decimal(*v as nat),
            ConfigError::InvalidMaxNumBlocks(v) => "无效的 max_num_blocks: 必须大于 0，实际值为 "@ + decimal(*v as nat),
            ConfigError::InvalidMaxBatchSize(v) => "无效的 max_batch_size: 必须大于 0，实际值为 "@ + decimal(*v as nat),
            ConfigError::InvalidMaxNumSeqs(v) => "无效的 max_num_seqs: 必须大于 0，实际值为 "@ + decimal(*v as nat),
            ConfigError::InvalidMaxModelLen(v) => "无效的 max_model_len: 必须大于 0，实际值为 "@ + decimal(*v as nat),
            ConfigError::InvalidMaxTotalTokens(v) => "无效的 max_total_tokens: 必须大于 0，实际值为 "@ + decimal(*v as nat),
            ConfigError::InvalidMemoryThreshold(v) => "无效的 memory_threshold: 必须在 (0, 1000000] 百万分之一范围内，实际值为 "@ + signed_decimal(*v as int),
            ConfigError::FileLoadError(m) => "加载配置文件失败: "@ + m@,
            ConfigError::FileSaveError(m) => "保存配置文件失败: "@ + m@,
            ConfigError::ParseError(m) => "解析配置失败: "@ + m@,
            ConfigError::MissingTokenizerPath => "缺少 HuggingFace tokenizer 路径"@,
            ConfigError::InvalidCommandProgram => "无效的命令桥接程序: program 不能为空"@,
            ConfigError::InvalidServerPort(v) => "无效的服务端口: 必须大于 0，实际值为 "@ + decimal(*v as nat),
            ConfigError::InvalidModelName => "无效的模型名称: 不能为空"@,
        }
    }

    /// The error's message.
    pub fn message(&self) -> (r: String)
        ensures
            r@ == self.spec_message(),
    {
        match self {
            ConfigError::InvalidBlockSize(v) => text_with_number("无效的 block_size: 必须大于 0，实际值为 ", *v as u64),
            ConfigError::InvalidMaxNumBlocks(v) => text_with_number("无效的 max_num_blocks: 必须大于 0，实际值为 ", *v as u64),
            ConfigError::InvalidMaxBatchSize(v) => text_with_number("无效的 max_batch_size: 必须大于 0，实际值为 ", *v as u64),
            ConfigError::InvalidMaxNumSeqs(v) => text_with_number("无效的 max_num_seqs: 必须大于 0，实际值为 ", *v as u64),
            ConfigError::InvalidMaxModelLen(v) => text_with_number("无效的 max_model_len: 必须大于 0，实际值为 ", *v as u64),
            ConfigError::InvalidMaxTotalTokens(v) => text_with_number("无效的 max_total_tokens: 必须大于 0，实际值为 ", *v as u64),
            ConfigError::InvalidMemoryThreshold(v) => {
                let mut s = String::from_str("无效的 memory_threshold: 必须在 (0, 1000000] 百万分之一范围内，实际值为 ");
                push_signed_decimal(&mut s, *v);
                s
            },
            ConfigError::FileLoadError(m) => concat_text("加载配置文件失败: ", m.as_str()),
            ConfigError::FileSaveError(m) => concat_text("保存配置文件失败: ", m.as_str()),
            ConfigError::ParseError(m) => concat_text("解析配置失败: ", m.as_str()),
            ConfigError::MissingTokenizerPath => String::from_str("缺少 HuggingFace tokenizer 路径"),
            ConfigError::InvalidCommandProgram => String::from_str("无效的命令桥接程序: program 不能为空"),
            ConfigError::InvalidServerPort(v) => text_with_number("无效的服务端口: 必须大于 0，实际值为 ", *v as u64),
            ConfigError::InvalidModelName => String::from_str("无效的模型名称: 不能为空"),
        }
    }
}

impl ValidationError {
    /// The error's message.
    pub open spec fn spec_message(&self) -> Seq<char> {
        match self {
            ValidationError::InvalidMaxTokens(v) => "无效的 max_tokens: 必须大于 0，实际值为 "@ + decimal(*v as nat),
            ValidationError::InvalidTemperature(v) => "无效的 temperature: 必须在 (0, 2000000] 百万分之一范围内，实际值为 "@ + signed_decimal(*v as int),
            ValidationError::InvalidTopP(v) => "无效的 top_p: 必须在 (0, 1000000] 百万分之一范围内，实际值为 "@ + signed_decimal(*v as int),
            ValidationError::EmptyInput => "输入文本为空"@,
            ValidationError::InputTooLong(a, b) => "输入超出最大模型长度: "@ + decimal(*a as nat) + " > "@ + decimal(*b as nat),
            ValidationError::TotalLengthTooLong(a, b) => "请求总长度超出最大模型长度: "@ + decimal(*a as nat) + " > "@ + decimal(*b as nat),
        }
    }

    /// The error's message.
    pub fn message(&self) -> (r: String)
        ensures
            r@ == self.spec_message(),
    {
        match self {
            ValidationError::InvalidMaxTokens(v) => text_with_number("无效的 max_tokens: 必须大于 0，实际值为 ", *v as u64),
            ValidationError::InvalidTemperature(v) => {
                let mut s = String::from_str("无效的 temperature: 必须在 (0, 2000000] 百万分之一范围内，实际值为 ");
                push_signed_decimal(&mut s, *v);
                s
            },
            ValidationError::InvalidTopP(v) => {
                let mut s = String::from_str("无效的 top_p: 必须在 (0, 1000000] 百万分之一范围内，实际值为 ");
                push_signed_decimal(&mut s, *v);
                s
            },
            ValidationError::EmptyInput => String::from_str("输入文本为空"),
            ValidationError::InputTooLong(a, b) => text_with_two_numbers("输入超出最大模型长度: ", *a as u64, " > ", *b as u64),
            ValidationError::TotalLengthTooLong(a, b) => text_with_two_numbers("请求总长度超出最大模型长度: ", *a as u64, " > ", *b as u64),
        }
    }
}

impl ExecutionError {
    /// The error's message.
    pub open spec fn spec_message(&self) -> Seq<char> {
        match self {
            ExecutionError::CudaError(m) => "CUDA 错误: "@ + m@,
            ExecutionError::GpuTimeout => "GPU 超时"@,
            ExecutionError::InvalidOutput => "无效输出: 检测到 NaN 或 Inf"@,
            ExecutionError::KernelLaunchFailed(m) => "Kernel 启动失败: "@ + m@,
        }
    }

    /// The error's message.
    pub fn message(&self) -> (r: String)
        ensures
            r@ == self.spec_message(),
    {
        match self {
            ExecutionError::CudaError(m) => concat_text("CUDA 错误: ", m.as_str()),
            ExecutionError::GpuTimeout => String::from_str("GPU 超时"),
            ExecutionError::InvalidOutput => String::from_str("无效输出: 检测到 NaN 或 Inf"),
            ExecutionError::KernelLaunchFailed(m) => concat_text("Kernel 启动失败: ", m.as_str()),
        }
    }
}

impl SchedulerError {
    /// The error's message.
    pub open spec fn spec_message(&self) -> Seq<char> {
        match self {
            SchedulerError::MemoryPressure => "内存压力: 无法接受新的 prefill 请求"@,
            SchedulerError::RequestNotFound(id) => "请求不存在: "@ + decimal(*id as nat),
            SchedulerError::InvalidStateTransition(m) => "无效的状态转换: "@ + m@,
        }
    }

    /// The error's message.
    pub fn message(&self) -> (r: String)
        ensures
            r@ == self.spec_message(),
    {
        match self {
            SchedulerError::MemoryPressure => String::from_str("内存压力: 无法接受新的 prefill 请求"),
            SchedulerError::RequestNotFound(id) => text_with_number("请求不存在: ", *id),
            SchedulerError::InvalidStateTransition(m) => concat_text("无效的状态转换: ", m.as_str()),
        }
    }
}

impl EngineError {
    /// The error's message.
    pub open spec fn spec_message(&self) -> Seq<char> {
        match self {
            EngineError::Config(e) => "配置错误: "@ + e.spec_message(),
            EngineError::Validation(e) => "验证错误: "@ + e.spec_message(),
            EngineError::Memory(e) => "内存错误: "@ + e.spec_message(),
            EngineError::Execution(e) => "执行错误: "@ + e.spec_message(),
            EngineError::Scheduler(e) => "调度错误: "@ + e.spec_message(),
            EngineError::Tokenization(m) => "分词错误: "@ + m@,
        }
    }

    /// The error's message.
    pub fn message(&self) -> (r: String)
        ensures
            r@ == self.spec_message(),
    {
        let (prefix, inner) = match self {
            EngineError::Config(e) => ("配置错误: ", e.message()),
            EngineError::Validation(e) => ("验证错误: ", e.message()),
            EngineError::Memory(e) => ("内存错误: ", e.message()),
            EngineError::Execution(e) => ("执行错误: ", e.message()),
            EngineError::Scheduler(e) => ("调度错误: ", e.message()),
            EngineError::Tokenization(m) => ("分词错误: ", m.clone()),
        };
        concat_text(prefix, inner.as_str())
    }
}

} // verus!
