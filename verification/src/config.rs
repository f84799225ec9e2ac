//! Engine configuration and its validation.
//!
//! Fractions (the memory-pressure threshold) are held as integers in
//! millionths: [`PPM_ONE`] stands for 1.0, so `900_000` means 0.9.
use std::path::PathBuf;
use vstd::prelude::*;
use vstd::string::StrSliceExecFns;

use crate::error::ConfigError;

verus! {

/// The integer that stands for 1.0 in quantities held in millionths.
pub const PPM_ONE: i64 = 1_000_000;

#[verifier::external_type_specification]
#[verifier::external_body]
pub struct ExPathBuf(PathBuf);

/// Clones a path.
#[verifier::external_body]
fn clone_path(p: &PathBuf) -> PathBuf {
    p.clone()
}

/// The Unicode `White_Space` property, which `char::is_whitespace` tests and
/// `str::trim` strips.
pub open spec fn is_white_space(c: char) -> bool {
    let u = c as u32;
    (0x9 <= u <= 0xD) || u == 0x20 || u == 0x85 || u == 0xA0 || u == 0x1680 || (0x2000 <= u
        <= 0x200A) || u == 0x2028 || u == 0x2029 || u == 0x202F || u == 0x205F || u == 0x3000
}

/// A string that trims to the empty string: all of its characters are white space.
pub open spec fn is_blank_spec(s: Seq<char>) -> bool {
    forall|i: int| 0 <= i < s.len() ==> is_white_space(#[trigger] s[i])
}

/// Whether `c` has the Unicode `White_Space` property.
pub fn is_white_space_char(c: char) -> (r: bool)
    ensures
        r == is_white_space(c),
{
    let u = c as u32;
    (0x9 <= u && u <= 0xD) || u == 0x20 || u == 0x85 || u == 0xA0 || u == 0x1680 || (0x2000 <= u
        && u <= 0x200A) || u == 0x2028 || u == 0x2029 || u == 0x202F || u == 0x205F || u == 0x3000
}

/// Whether `s.trim()` is empty.
pub fn is_blank(s: &str) -> (r: bool)
    ensures
        r == is_blank_spec(s@),
{
    let n = s.unicode_len();
    let mut i: usize = 0;
    while i < n
        invariant
            n == s@.len(),
            i <= n,
            is_blank_spec(s@.take(i as int)),
        decreases n - i,
    {
        let c = s.get_char(i);
        if !is_white_space_char(c) {
            assert(!is_white_space(s@[i as int]));
            return false;
        }
        proof {
            assert(s@.take(i + 1) =~= s@.take(i as int).push(c));
        }
        i = i + 1;
    }
    proof {
        assert(s@.take(s@.len() as int) =~= s@);
    }
    true
}

/// Ids of the special tokens of a vocabulary.
#[derive(Debug, Clone, Copy, PartialEq, Eq, Structural)]
pub struct SpecialTokenIds {
    /// Beginning of sequence.
    pub bos: u32,
    /// End of sequence.
    pub eos: u32,
    /// Padding.
    pub pad: u32,
    /// Unknown character.
    pub unk: u32,
}

impl Default for SpecialTokenIds {
    fn default() -> (r: Self)
        ensures
            r == (SpecialTokenIds { bos: 1, eos: 2, pad: 0, unk: 3 }),
    {
        Self { bos: 1, eos: 2, pad: 0, unk: 3 }
    }
}

impl SpecialTokenIds {
    /// Special token ids from their values.
    pub fn new(bos: u32, eos: u32, pad: u32, unk: u32) -> (r: Self)
        ensures
            r == (SpecialTokenIds { bos, eos, pad, unk }),
    {
        Self { bos, eos, pad, unk }
    }
}

/// Which tokenizer the engine uses.
#[derive(Debug, Clone, Copy, PartialEq, Eq, Structural)]
pub enum TokenizerKind {
    Simple,
    HuggingFace,
}

impl Default for TokenizerKind {
    fn default() -> (r: Self)
        ensures
            r == TokenizerKind::Simple,
    {
        TokenizerKind::Simple
    }
}

/// Tokenizer settings.
#[derive(Debug, Clone, PartialEq, Eq)]
pub struct TokenizerConfig {
    /// Which tokenizer to build.
    pub kind: TokenizerKind,
    /// Path of a HuggingFace `tokenizer.json`.
    pub path: Option<PathBuf>,
}

impl Default for TokenizerConfig {
    fn default() -> (r: Self)
        ensures
            r.kind == TokenizerKind::Simple,
            r.path is None,
    {
        Self { kind: TokenizerKind::Simple, path: None }
    }
}

impl TokenizerConfig {
    /// A copy of the settings.
    pub fn duplicate(&self) -> (r: Self)
        ensures
            r.kind == self.kind,
            r.path is Some <==> self.path is Some,
    {
        let path = match &self.path {
            Some(p) => Some(clone_path(p)),
            None => None,
        };
        Self { kind: self.kind, path }
    }
}

/// Which serving backend answers requests.
#[derive(Debug, Clone, Copy, PartialEq, Eq, Structural)]
pub enum ServingBackendKind {
    LocalEngine,
    CommandBridge,
}

impl Default for ServingBackendKind {
    fn default() -> (r: Self)
        ensures
            r == ServingBackendKind::LocalEngine,
    {
        ServingBackendKind::LocalEngine
    }
}

/// An external program that answers requests.
#[derive(Debug, Clone, PartialEq, Eq)]
pub struct CommandBridgeConfig {
    /// The program to run.
    pub program: String,
    /// Its extra arguments.
    pub args: Vec<String>,
}

impl Default for CommandBridgeConfig {
    fn default() -> (r: Self)
        ensures
            r.program@ == Seq::<char>::empty(),
            r.args@.len() == 0,
    {
        Self { program: String::new(), args: Vec::new() }
    }
}

impl CommandBridgeConfig {
    /// A copy of the settings.
    pub fn duplicate(&self) -> (r: Self)
        ensures
            r.program@ == self.program@,
            r.args@.len() == self.args@.len(),
    {
        Self { program: self.program.clone(), args: self.args.clone() }
    }
}

/// Serving backend settings.
#[derive(Debug, Clone, PartialEq, Eq)]
pub struct ServingBackendConfig {
    /// Which backend.
    pub kind: ServingBackendKind,
    /// The program of a command bridge.
    pub command: Option<CommandBridgeConfig>,
}

impl Default for ServingBackendConfig {
    fn default() -> (r: Self)
        ensures
            r.kind == ServingBackendKind::LocalEngine,
            r.command is None,
    {
        Self { kind: ServingBackendKind::LocalEngine, command: None }
    }
}

impl ServingBackendConfig {
    /// A copy of the settings.
    pub fn duplicate(&self) -> (r: Self)
        ensures
            r.kind == self.kind,
            r.command is Some <==> self.command is Some,
            self.command is Some ==> r.command.unwrap().program@ == self.command.unwrap().program@,
    {
        let command = match &self.command {
            Some(c) => Some(c.duplicate()),
            None => None,
        };
        Self { kind: self.kind, command }
    }
}

/// Settings of the OpenAI-compatible server.
#[derive(Debug, Clone, PartialEq, Eq)]
pub struct ServingConfig {
    /// Host to listen on.
    pub host: String,
    /// Port to listen on.
    pub port: u16,
    /// Model name reported to clients.
    pub model_name: String,
    /// The backend that answers requests.
    pub backend: ServingBackendConfig,
}

impl Default for ServingConfig {
    fn default() -> (r: Self)
        ensures
            r.host@ == "127.0.0.1"@,
            r.port == 3000,
            r.model_name@ == "hetero-infer"@,
            r.backend.kind == ServingBackendKind::LocalEngine,
            r.backend.command is None,
    {
        Self {
            host: String::from_str("127.0.0.1"),
            port: 3000,
            model_name: String::from_str("hetero-infer"),
            backend: ServingBackendConfig::default(),
        }
    }
}

impl ServingConfig {
    /// A copy of the settings.
    pub fn duplicate(&self) -> (r: Self)
        ensures
            r.host@ == self.host@,
            r.port == self.port,
            r.model_name@ == self.model_name@,
            r.backend.kind == self.backend.kind,
            r.backend.command is Some <==> self.backend.command is Some,
            self.backend.command is Some ==> r.backend.command.unwrap().program@
                == self.backend.command.unwrap().program@,
    {
        Self {
            host: self.host.clone(),
            port: self.port,
            model_name: self.model_name.clone(),
            backend: self.backend.duplicate(),
        }
    }
}

/// Engine configuration.
///
/// | field | meaning |
/// |-------|---------|
/// | `block_size` | tokens per KV block |
/// | `max_num_blocks` | physical blocks in the pool |
/// | `max_batch_size` | sequences per scheduled batch |
/// | `max_num_seqs` | concurrent prefill and decode sequences |
/// | `max_model_len` | prompt plus generation, in tokens |
/// | `max_total_tokens` | tokens per scheduled batch |
/// | `memory_threshold` | pool utilization, in millionths, from which new requests are refused |
/// | `max_retry_attempts` | retries of a batch that timed out |
#[derive(Debug, Clone)]
pub struct EngineConfig {
    pub block_size: u32,
    pub max_num_blocks: u32,
    pub max_batch_size: u32,
    pub max_num_seqs: u32,
    pub max_model_len: u32,
    pub max_total_tokens: u32,
    /// Threshold in millionths, valid in `(0, 1_000_000]`.
    pub memory_threshold: i64,
    pub max_retry_attempts: u32,
    pub special_tokens: SpecialTokenIds,
    pub tokenizer: TokenizerConfig,
    pub serving: ServingConfig,
}

/// The numeric settings of an engine configuration, which the scheduler and
/// the executor read.
#[derive(Debug, Clone, Copy, PartialEq, Eq, Structural)]
pub struct Limits {
    pub block_size: u32,
    pub max_num_blocks: u32,
    pub max_batch_size: u32,
    pub max_num_seqs: u32,
    pub max_model_len: u32,
    pub max_total_tokens: u32,
    pub memory_threshold: i64,
    pub max_retry_attempts: u32,
    pub special_tokens: SpecialTokenIds,
}

impl Default for EngineConfig {
    fn default() -> (r: Self)
        ensures
            r.limits() == (Limits {
                block_size: 16,
                max_num_blocks: 1024,
                max_batch_size: 32,
                max_num_seqs: 256,
                max_model_len: 2048,
                max_total_tokens: 4096,
                memory_threshold: 900_000,
                max_retry_attempts: 2,
                special_tokens: SpecialTokenIds { bos: 1, eos: 2, pad: 0, unk: 3 },
            }),
            r.tokenizer.kind == TokenizerKind::Simple,
            r.tokenizer.path is None,
            r.serving.host@ == "127.0.0.1"@,
            r.serving.port == 3000,
            r.serving.model_name@ == "hetero-infer"@,
            r.serving.backend.kind == ServingBackendKind::LocalEngine,
            r.serving.backend.command is None,
    {
        Self {
            block_size: 16,
            max_num_blocks: 1024,
            max_batch_size: 32,
            max_num_seqs: 256,
            max_model_len: 2048,
            max_total_tokens: 4096,
            memory_threshold: 900_000,
            max_retry_attempts: 2,
            special_tokens: SpecialTokenIds::default(),
            tokenizer: TokenizerConfig::default(),
            serving: ServingConfig::default(),
        }
    }
}

/// The first rule that `config` breaks, in the order `validate` checks them.
pub open spec fn config_error(config: EngineConfig) -> Option<ConfigError> {
    if config.block_size == 0 {
        Some(ConfigError::InvalidBlockSize(config.block_size))
    } else if config.max_num_blocks == 0 {
        Some(ConfigError::InvalidMaxNumBlocks(config.max_num_blocks))
    } else if config.max_batch_size == 0 {
        Some(ConfigError::InvalidMaxBatchSize(config.max_batch_size))
    } else if config.max_num_seqs == 0 {
        Some(ConfigError::InvalidMaxNumSeqs(config.max_num_seqs))
    } else if config.max_model_len == 0 {
        Some(ConfigError::InvalidMaxModelLen(config.max_model_len))
    } else if config.max_total_tokens == 0 {
        Some(ConfigError::InvalidMaxTotalTokens(config.max_total_tokens))
    } else if config.memory_threshold <= 0 || config.memory_threshold > PPM_ONE {
        Some(ConfigError::InvalidMemoryThreshold(config.memory_threshold))
    } else if config.tokenizer.kind == TokenizerKind::HuggingFace && config.tokenizer.path is None {
        Some(ConfigError::MissingTokenizerPath)
    } else if config.serving.port == 0 {
        Some(ConfigError::InvalidServerPort(config.serving.port))
    } else if is_blank_spec(config.serving.model_name@) {
        Some(ConfigError::InvalidModelName)
    } else if config.serving.backend.kind == ServingBackendKind::CommandBridge && (
    config.serving.backend.command is None || is_blank_spec(
        config.serving.backend.command.unwrap().program@,
    )) {
        Some(ConfigError::InvalidCommandProgram)
    } else {
        None
    }
}

impl EngineConfig {
    /// The numeric settings.
    pub open spec fn limits(&self) -> Limits {
        Limits {
            block_size: self.block_size,
            max_num_blocks: self.max_num_blocks,
            max_batch_size: self.max_batch_size,
            max_num_seqs: self.max_num_seqs,
            max_model_len: self.max_model_len,
            max_total_tokens: self.max_total_tokens,
            memory_threshold: self.memory_threshold,
            max_retry_attempts: self.max_retry_attempts,
            special_tokens: self.special_tokens,
        }
    }

    /// The configuration breaks no rule of `validate`.
    pub open spec fn valid(&self) -> bool {
        config_error(*self) is None
    }

    /// A copy of the configuration.
    pub fn duplicate(&self) -> (r: Self)
        ensures
            r.limits() == self.limits(),
            r.valid() == self.valid(),
            config_error(r) == config_error(*self),
    {
        Self {
            block_size: self.block_size,
            max_num_blocks: self.max_num_blocks,
            max_batch_size: self.max_batch_size,
            max_num_seqs: self.max_num_seqs,
            max_model_len: self.max_model_len,
            max_total_tokens: self.max_total_tokens,
            memory_threshold: self.memory_threshold,
            max_retry_attempts: self.max_retry_attempts,
            special_tokens: self.special_tokens,
            tokenizer: self.tokenizer.duplicate(),
            serving: self.serving.duplicate(),
        }
    }

    /// A validated configuration with the given limits and the default
    /// retry count, special tokens, tokenizer and server settings.
    pub fn new(
        block_size: u32,
        max_num_blocks: u32,
        max_batch_size: u32,
        max_num_seqs: u32,
        max_model_len: u32,
        max_total_tokens: u32,
        memory_threshold: i64,
    ) -> (r: Result<Self, ConfigError>)
        ensures
            ({
                let lim = Limits {
                    block_size,
                    max_num_blocks,
                    max_batch_size,
                    max_num_seqs,
                    max_model_len,
                    max_total_tokens,
                    memory_threshold,
                    max_retry_attempts: 2,
                    special_tokens: SpecialTokenIds { bos: 1, eos: 2, pad: 0, unk: 3 },
                };
                match r {
                    Ok(c) => c.limits() == lim && c.valid(),
                    Err(e) => {
                        &&& block_size == 0 || max_num_blocks == 0 || max_batch_size == 0
                            || max_num_seqs == 0 || max_model_len == 0 || max_total_tokens == 0
                            || memory_threshold <= 0 || memory_threshold > PPM_ONE
                        &&& exists|c: EngineConfig| c.limits() == lim && config_error(c) == Some(e)
                    },
                }
            }),
            r is Ok <==> (block_size > 0 && max_num_blocks > 0 && max_batch_size > 0 && max_num_seqs
                > 0 && max_model_len > 0 && max_total_tokens > 0 && 0 < memory_threshold <= PPM_ONE),
    {
        let config = Self {
            block_size,
            max_num_blocks,
            max_batch_size,
            max_num_seqs,
            max_model_len,
            max_total_tokens,
            memory_threshold,
            max_retry_attempts: 2,
            special_tokens: SpecialTokenIds::default(),
            tokenizer: TokenizerConfig::default(),
            serving: ServingConfig::default(),
        };
        proof {
            reveal_strlit("hetero-infer");
            assert(!is_blank_spec(config.serving.model_name@)) by {
                assert(!is_white_space(config.serving.model_name@[0]));
            }
        }
        match config.validate() {
            Ok(()) => Ok(config),
            Err(e) => Err(e),
        }
    }

    /// Checks the settings; the first rule broken, in the order below, is
    /// reported.
    ///
    /// - `block_size`, `max_num_blocks`, `max_batch_size`, `max_num_seqs`,
    ///   `max_model_len`, `max_total_tokens` must be positive;
    /// - `memory_threshold` must lie in `(0, 1_000_000]`;
    /// - a HuggingFace tokenizer needs a path;
    /// - the server port must be positive and the model name not blank;
    /// - a command bridge needs a program that is not blank.
    pub fn validate(&self) -> (r: Result<(), ConfigError>)
        ensures
            match config_error(*self) {
                Some(e) => r == Err::<(), ConfigError>(e),
                None => r is Ok,
            },
            self.block_size == 0 ==> r == Err::<(), ConfigError>(ConfigError::InvalidBlockSize(0)),
            r is Ok ==> self.block_size > 0 && self.max_num_blocks > 0 && self.max_batch_size > 0
                && self.max_num_seqs > 0 && self.max_model_len > 0 && self.max_total_tokens > 0
                && 0 < self.memory_threshold <= 1_000_000 && self.serving.port != 0,
    {
        if self.block_size == 0 {
            return Err(ConfigError::InvalidBlockSize(self.block_size));
        }
        if self.max_num_blocks == 0 {
            return Err(ConfigError::InvalidMaxNumBlocks(self.max_num_blocks));
        }
        if self.max_batch_size == 0 {
            return Err(ConfigError::InvalidMaxBatchSize(self.max_batch_size));
        }
        if self.max_num_seqs == 0 {
            return Err(ConfigError::InvalidMaxNumSeqs(self.max_num_seqs));
        }
        if self.max_model_len == 0 {
            return Err(ConfigError::InvalidMaxModelLen(self.max_model_len));
        }
        if self.max_total_tokens == 0 {
            return Err(ConfigError::InvalidMaxTotalTokens(self.max_total_tokens));
        }
        if self.memory_threshold <= 0 || self.memory_threshold > PPM_ONE {
            return Err(ConfigError::InvalidMemoryThreshold(self.memory_threshold));
        }
        if self.tokenizer.kind == TokenizerKind::HuggingFace && self.tokenizer.path.is_none() {
            return Err(ConfigError::MissingTokenizerPath);
        }
        if self.serving.port == 0 {
            return Err(ConfigError::InvalidServerPort(self.serving.port));
        }
        if is_blank(self.serving.model_name.as_str()) {
            return Err(ConfigError::InvalidModelName);
        }
        if self.serving.backend.kind == ServingBackendKind::CommandBridge {
            match &self.serving.backend.command {
                None => {
                    return Err(ConfigError::InvalidCommandProgram);
                },
                Some(command) => {
                    if is_blank(command.program.as_str()) {
                        return Err(ConfigError::InvalidCommandProgram);
                    }
                },
            }
        }
        Ok(())
    }

    /// Whether `validate` accepts the configuration.
    pub fn is_valid(&self) -> (r: bool)
        ensures
            r == self.valid(),
    {
        self.block_size > 0 && self.max_num_blocks > 0 && self.max_batch_size > 0
            && self.max_num_seqs > 0 && self.max_model_len > 0 && self.max_total_tokens > 0
            && self.memory_threshold > 0 && self.memory_threshold <= PPM_ONE && (
        self.tokenizer.kind != TokenizerKind::HuggingFace || self.tokenizer.path.is_some())
            && self.serving.port > 0 && !is_blank(self.serving.model_name.as_str()) && (
        self.serving.backend.kind != ServingBackendKind::CommandBridge || match &self.serving.backend.command {
            Some(command) => !is_blank(command.program.as_str()),
            None => false,
        })
    }

    /// Number of blocks that `num_tokens` tokens occupy: `ceil(num_tokens / block_size)`.
    pub fn blocks_for_tokens(&self, num_tokens: u32) -> (r: u32)
        requires
            self.block_size > 0,
        ensures
            r == crate::kv_cache::ceil_div(num_tokens as int, self.block_size as int),
    {
        let q = num_tokens / self.block_size;
        proof {
            crate::kv_cache::lemma_ceil_div(num_tokens as int, self.block_size as int);
        }
        if num_tokens % self.block_size == 0 {
            q
        } else {
            q + 1
        }
    }

    /// Number of tokens that `num_blocks` blocks hold: `num_blocks * block_size`.
    pub fn tokens_in_blocks(&self, num_blocks: u32) -> (r: u32)
        requires
            num_blocks * self.block_size <= u32::MAX,
        ensures
            r == num_blocks * self.block_size,
    {
        num_blocks * self.block_size
    }
}

} // verus!
