//! Core data types of the inference engine.
//!
//! Sampling parameters are held as integers in millionths, see
//! [`crate::config::PPM_ONE`].
use std::sync::Arc;
use std::time::Instant;
use vstd::prelude::*;

use crate::config::PPM_ONE;
use crate::error::ValidationError;

verus! {

#[verifier::external_type_specification]
#[verifier::external_body]
pub struct ExInstant(Instant);

/// `Instant` is `Copy`: its clone is the value itself.
pub assume_specification[ <Instant as Clone>::clone ](i: &Instant) -> (r: Instant)
    ensures
        r == *i,
;

/// The current time; nothing is stated of it.
#[verifier::external_body]
fn instant_now() -> Instant {
    Instant::now()
}

/// Unique identifier of a request.
pub type RequestId = u64;

/// Unique identifier of a sequence.
pub type SeqId = u64;

/// Token identifier.
pub type TokenId = u32;

/// Index of a physical KV block.
pub type BlockIdx = u32;

/// Reference to a physical block of the KV pool.
#[derive(Debug, Clone, Copy, PartialEq, Eq, Hash, Structural)]
pub struct PhysicalBlockRef {
    pub block_idx: BlockIdx,
}

/// A block of a sequence, mapped to a physical block once allocated.
#[derive(Debug, Clone, Copy, PartialEq, Eq, Structural)]
pub struct LogicalBlock {
    /// Index of the block within its sequence.
    pub block_idx: u32,
    /// The physical block it is mapped to, if any.
    pub physical_block: Option<PhysicalBlockRef>,
}

impl LogicalBlock {
    /// An unmapped logical block.
    pub fn new(block_idx: u32) -> (r: Self)
        ensures
            r == (LogicalBlock { block_idx, physical_block: None }),
    {
        Self { block_idx, physical_block: None }
    }

    /// A logical block mapped to `physical`.
    pub fn with_physical(block_idx: u32, physical: PhysicalBlockRef) -> (r: Self)
        ensures
            r == (LogicalBlock { block_idx, physical_block: Some(physical) }),
    {
        Self { block_idx, physical_block: Some(physical) }
    }
}

/// The physical block indices of `lbs`, in order, skipping unmapped blocks.
pub open spec fn mapped_blocks(lbs: Seq<LogicalBlock>) -> Seq<BlockIdx>
    decreases lbs.len(),
{
    if lbs.len() == 0 {
        Seq::empty()
    } else {
        let rest = mapped_blocks(lbs.drop_last());
        match lbs.last().physical_block {
            Some(p) => rest.push(p.block_idx),
            None => rest,
        }
    }
}

/// Every logical block of `lbs` is mapped and numbered by its position.
pub open spec fn fully_mapped(lbs: Seq<LogicalBlock>) -> bool {
    forall|i: int|
        0 <= i < lbs.len() ==> (#[trigger] lbs[i]).block_idx == i as u32 && lbs[i].physical_block is Some
}

/// The physical block of each logical block, position by position.
pub open spec fn physical_indices(lbs: Seq<LogicalBlock>) -> Seq<BlockIdx> {
    lbs.map_values(|lb: LogicalBlock| lb.physical_block.unwrap().block_idx)
}

/// When every block is mapped, skipping unmapped blocks skips nothing.
pub proof fn lemma_mapped_blocks_all_some(lbs: Seq<LogicalBlock>)
    requires
        forall|i: int| 0 <= i < lbs.len() ==> (#[trigger] lbs[i]).physical_block is Some,
    ensures
        mapped_blocks(lbs) == physical_indices(lbs),
    decreases lbs.len(),
{
    if lbs.len() > 0 {
        let init = lbs.drop_last();
        assert forall|i: int| 0 <= i < init.len() implies (#[trigger] init[i]).physical_block is Some by {
            assert(init[i] == lbs[i]);
        }
        lemma_mapped_blocks_all_some(init);
        assert(physical_indices(lbs) =~= physical_indices(init).push(
            lbs.last().physical_block.unwrap().block_idx,
        ));
    }
}

/// Collects the physical block indices of `lbs`, skipping unmapped blocks.
pub fn collect_block_table(lbs: &Vec<LogicalBlock>) -> (r: Vec<BlockIdx>)
    ensures
        r@ == mapped_blocks(lbs@),
{
    let mut out: Vec<BlockIdx> = Vec::new();
    let mut i: usize = 0;
    while i < lbs.len()
        invariant
            i <= lbs.len(),
            out@ == mapped_blocks(lbs@.subrange(0, i as int)),
        decreases lbs.len() - i,
    {
        let lb = lbs[i];
        proof {
            assert(lbs@.subrange(0, i + 1).drop_last() =~= lbs@.subrange(0, i as int));
        }
        match lb.physical_block {
            Some(pb) => out.push(pb.block_idx),
            None => {},
        }
        i = i + 1;
    }
    assert(lbs@.subrange(0, lbs@.len() as int) =~= lbs@);
    out
}

/// Snapshot of the KV pool's occupancy.
#[derive(Debug, Clone, Copy, Default, PartialEq, Eq, Structural)]
pub struct MemoryStats {
    pub total_blocks: u32,
    pub used_blocks: u32,
    pub free_blocks: u32,
    pub num_sequences: u32,
}


impl MemoryStats {
    /// Utilization of the pool, in millionths, rounded down; 0 for an empty pool.
    pub fn utilization(&self) -> (r: u64)
        ensures
            r == (if self.total_blocks == 0 {
                0
            } else {
                (self.used_blocks as int * PPM_ONE) / self.total_blocks as int
            }),
    {
        if self.total_blocks == 0 {
            0
        } else {
            (self.used_blocks as u64 * 1_000_000) / self.total_blocks as u64
        }
    }

    /// Whether the utilization reaches `threshold` (in millionths), compared
    /// exactly.
    pub open spec fn at_least(&self, threshold: i64) -> bool {
        if self.total_blocks == 0 {
            threshold <= 0
        } else {
            self.used_blocks as int * PPM_ONE >= threshold as int * self.total_blocks as int
        }
    }

    /// Whether the utilization reaches `threshold` (in millionths).
    pub fn utilization_at_least(&self, threshold: i64) -> (r: bool)
        ensures
            r == self.at_least(threshold),
    {
        if self.total_blocks == 0 {
            threshold <= 0
        } else {
            proof {
                let t = threshold as int;
                let n = self.total_blocks as int;
                assert(-0x8000_0000_0000_0000 * 0x1_0000_0000 <= t * n <= 0x8000_0000_0000_0000 * 0x1_0000_0000)
                    by (nonlinear_arith)
                    requires
                        -0x8000_0000_0000_0000 <= t < 0x8000_0000_0000_0000,
                        0 <= n < 0x1_0000_0000,
                ;
            }
            (self.used_blocks as i128) * 1_000_000 >= (threshold as i128) * (self.total_blocks as i128)
        }
    }
}

/// State of a request in the pipeline.
///
/// ```text
/// Pending → Prefill → Decode → Completed
///                     ↘ Failed
/// ```
#[derive(Debug, Clone, PartialEq)]
pub enum RequestState {
    /// Waiting to be scheduled.
    Pending,
    /// Its prompt is being processed.
    Prefill,
    /// It is generating tokens.
    Decode,
    /// It finished.
    Completed,
    /// It failed, for the reason given.
    Failed(String),
}

impl RequestState {
    /// Prefill or decode.
    pub fn is_active(&self) -> (r: bool)
        ensures
            r == (*self is Prefill || *self is Decode),
    {
        match self {
            RequestState::Prefill | RequestState::Decode => true,
            _ => false,
        }
    }

    /// Completed or failed.
    pub fn is_terminal(&self) -> (r: bool)
        ensures
            r == (*self is Completed || *self is Failed),
    {
        match self {
            RequestState::Completed | RequestState::Failed(_) => true,
            _ => false,
        }
    }

    /// A copy of the state; a failure's reason is copied by value.
    pub fn duplicate(&self) -> (r: Self)
        ensures
            !(*self is Failed) ==> r == *self,
            *self is Failed ==> r is Failed && r->Failed_0@ == self->Failed_0@,
            r@ == self@,
    {
        match self {
            RequestState::Pending => RequestState::Pending,
            RequestState::Prefill => RequestState::Prefill,
            RequestState::Decode => RequestState::Decode,
            RequestState::Completed => RequestState::Completed,
            RequestState::Failed(msg) => RequestState::Failed(msg.clone()),
        }
    }
}

/// Sampling parameters. `temperature` and `top_p` are in millionths.
///
/// | parameter | valid range |
/// |-----------|-------------|
/// | `max_tokens` | > 0 |
/// | `temperature` | (0, 2_000_000] |
/// | `top_p` | (0, 1_000_000] |
#[derive(Debug, Clone, Copy, PartialEq, Eq, Structural)]
pub struct GenerationParams {
    /// Most tokens to generate.
    pub max_tokens: u32,
    /// Sampling temperature, in millionths.
    pub temperature: i64,
    /// Nucleus sampling threshold, in millionths.
    pub top_p: i64,
}

impl Default for GenerationParams {
    fn default() -> (r: Self)
        ensures
            r == (GenerationParams { max_tokens: 100, temperature: PPM_ONE, top_p: PPM_ONE }),
    {
        Self { max_tokens: 100, temperature: 1_000_000, top_p: 1_000_000 }
    }
}

/// The first rule that `p` breaks, in the order `validate` checks them.
pub open spec fn params_error(p: GenerationParams) -> Option<ValidationError> {
    if p.max_tokens == 0 {
        Some(ValidationError::InvalidMaxTokens(p.max_tokens))
    } else if p.temperature <= 0 || p.temperature > 2 * PPM_ONE {
        Some(ValidationError::InvalidTemperature(p.temperature))
    } else if p.top_p <= 0 || p.top_p > PPM_ONE {
        Some(ValidationError::InvalidTopP(p.top_p))
    } else {
        None
    }
}

impl GenerationParams {
    /// Checks `max_tokens > 0`, then the temperature, then top-p.
    pub fn validate(&self) -> (r: Result<(), ValidationError>)
        ensures
            match params_error(*self) {
                Some(e) => r == Err::<(), ValidationError>(e),
                None => r is Ok,
            },
            r is Ok <==> (self.max_tokens > 0 && 0 < self.temperature <= 2_000_000 && 0 < self.top_p <= 1_000_000),
            self.max_tokens == 0 ==> r == Err::<(), ValidationError>(ValidationError::InvalidMaxTokens(0)),
    {
        if self.max_tokens == 0 {
            return Err(ValidationError::InvalidMaxTokens(self.max_tokens));
        }
        if self.temperature <= 0 || self.temperature > 2_000_000 {
            return Err(ValidationError::InvalidTemperature(self.temperature));
        }
        if self.top_p <= 0 || self.top_p > 1_000_000 {
            return Err(ValidationError::InvalidTopP(self.top_p));
        }
        Ok(())
    }

    /// Whether all parameters are in range.
    pub fn is_valid(&self) -> (r: bool)
        ensures
            r == (params_error(*self) is None),
    {
        self.max_tokens > 0 && self.temperature > 0 && self.temperature <= 2_000_000 && self.top_p > 0
            && self.top_p <= 1_000_000
    }
}

/// An inference request.
#[derive(Debug, Clone)]
pub struct Request {
    pub id: RequestId,
    /// The tokenized prompt.
    pub input_tokens: Vec<TokenId>,
    /// The tokens generated so far.
    pub output_tokens: Vec<TokenId>,
    pub params: GenerationParams,
    pub state: RequestState,
    /// When the request was created.
    pub created_at: Instant,
}

/// Generation is over: `max_tokens` tokens were generated or the last one is EOS.
pub open spec fn output_complete(output: Seq<TokenId>, max_tokens: u32, eos: TokenId) -> bool {
    output.len() >= max_tokens || (output.len() > 0 && output.last() == eos)
}

impl Request {
    /// A pending request with no output.
    pub fn new(id: RequestId, input_tokens: Vec<TokenId>, params: GenerationParams) -> (r: Self)
        ensures
            r.id == id,
            r.input_tokens@ == input_tokens@,
            r.output_tokens@ == Seq::<TokenId>::empty(),
            r.params == params,
            r.state == RequestState::Pending,
    {
        Self {
            id,
            input_tokens,
            output_tokens: Vec::new(),
            params,
            state: RequestState::Pending,
            created_at: instant_now(),
        }
    }

    /// Prompt plus generated tokens.
    pub fn total_tokens(&self) -> (r: usize)
        requires
            self.input_tokens@.len() + self.output_tokens@.len() <= usize::MAX,
        ensures
            r == self.input_tokens@.len() + self.output_tokens@.len(),
    {
        self.input_tokens.len() + self.output_tokens.len()
    }

    /// Whether generation is over: `max_tokens` tokens were generated or the
    /// last one is `eos_token_id`.
    pub fn is_complete(&self, eos_token_id: TokenId) -> (r: bool)
        ensures
            r == output_complete(self.output_tokens@, self.params.max_tokens, eos_token_id),
    {
        if self.output_tokens.len() >= self.params.max_tokens as usize {
            return true;
        }
        if self.output_tokens.len() > 0 {
            let last_token = self.output_tokens[self.output_tokens.len() - 1];
            if last_token == eos_token_id {
                return true;
            }
        }
        false
    }

    /// A copy of the request.
    pub fn duplicate(&self) -> (r: Self)
        ensures
            r.id == self.id,
            r.input_tokens@ == self.input_tokens@,
            r.output_tokens@ == self.output_tokens@,
            r.params == self.params,
            !(self.state is Failed) ==> r.state == self.state,
            self.state is Failed ==> r.state is Failed && r.state->Failed_0@ == self.state->Failed_0@,
            r@ == self@,
    {
        let input_tokens = self.input_tokens.clone();
        let output_tokens = self.output_tokens.clone();
        proof {
            assert(input_tokens@ =~= self.input_tokens@);
            assert(output_tokens@ =~= self.output_tokens@);
        }
        Self {
            id: self.id,
            input_tokens,
            output_tokens,
            params: self.params,
            state: self.state.duplicate(),
            created_at: self.created_at,
        }
    }
}

/// An active request together with its KV blocks.
#[derive(Debug, Clone)]
pub struct Sequence {
    pub seq_id: SeqId,
    pub request: Request,
    /// The sequence's logical KV blocks.
    pub logical_blocks: Vec<LogicalBlock>,
    /// Tokens whose keys and values are cached.
    pub num_computed_tokens: u32,
    /// Tokens generated so far.
    pub num_generated_tokens: u32,
}

impl Sequence {
    /// The sequence's context length: prompt plus generated tokens.
    pub open spec fn spec_context_len(&self) -> int {
        (self.request.input_tokens@.len() as u32) as int + self.num_generated_tokens as int
    }

    /// A sequence with no blocks and nothing computed.
    pub fn new(seq_id: SeqId, request: Request) -> (s: Self)
        ensures
            s.seq_id == seq_id,
            s.request == request,
            s.logical_blocks@ == Seq::<LogicalBlock>::empty(),
            s.num_computed_tokens == 0,
            s.num_generated_tokens == 0,
    {
        Self {
            seq_id,
            request,
            logical_blocks: Vec::new(),
            num_computed_tokens: 0,
            num_generated_tokens: 0,
        }
    }

    /// The physical block indices, in logical order, for execution.
    pub fn get_block_table(&self) -> (r: Vec<BlockIdx>)
        ensures
            r@ == mapped_blocks(self.logical_blocks@),
    {
        collect_block_table(&self.logical_blocks)
    }

    /// Prompt length plus generated tokens.
    pub fn context_len(&self) -> (r: u32)
        requires
            self.spec_context_len() <= u32::MAX,
        ensures
            r == self.spec_context_len(),
    {
        self.request.input_tokens.len() as u32 + self.num_generated_tokens
    }

    /// Tokens this step processes: the prompt in prefill, one in decode.
    pub fn num_tokens_to_process(&self) -> (r: u32)
        ensures
            r == (match self.request.state {
                RequestState::Prefill => self.request.input_tokens@.len() as u32,
                RequestState::Decode => 1,
                _ => 0,
            }),
    {
        match self.request.state {
            RequestState::Prefill => self.request.input_tokens.len() as u32,
            RequestState::Decode => 1,
            _ => 0,
        }
    }

    /// The token decode feeds: the last generated one, else the last of the prompt.
    pub fn decode_input_token(&self) -> (r: Option<TokenId>)
        ensures
            r == (if self.request.output_tokens@.len() > 0 {
                Some(self.request.output_tokens@.last())
            } else if self.request.input_tokens@.len() > 0 {
                Some(self.request.input_tokens@.last())
            } else {
                None
            }),
    {
        let n = self.request.output_tokens.len();
        if n > 0 {
            return Some(self.request.output_tokens[n - 1]);
        }
        let m = self.request.input_tokens.len();
        if m > 0 {
            Some(self.request.input_tokens[m - 1])
        } else {
            None
        }
    }

    /// Position of the next token: context length minus one, if positive.
    pub fn decode_position(&self) -> (r: Option<u32>)
        requires
            self.spec_context_len() <= u32::MAX,
        ensures
            r == (if self.spec_context_len() >= 1 {
                Some((self.spec_context_len() - 1) as u32)
            } else {
                None
            }),
    {
        self.context_len().checked_sub(1)
    }

    /// A copy of the sequence.
    pub fn duplicate(&self) -> (r: Self)
        ensures
            r.seq_id == self.seq_id,
            r.request.id == self.request.id,
            r.request.input_tokens@ == self.request.input_tokens@,
            r.request.output_tokens@ == self.request.output_tokens@,
            r.request.params == self.request.params,
            !(self.request.state is Failed) ==> r.request.state == self.request.state,
            r.logical_blocks@ == self.logical_blocks@,
            r.num_computed_tokens == self.num_computed_tokens,
            r.num_generated_tokens == self.num_generated_tokens,
            r@ == self@,
    {
        let logical_blocks = self.logical_blocks.clone();
        proof {
            assert(logical_blocks@ =~= self.logical_blocks@);
        }
        Self {
            seq_id: self.seq_id,
            request: self.request.duplicate(),
            logical_blocks,
            num_computed_tokens: self.num_computed_tokens,
            num_generated_tokens: self.num_generated_tokens,
        }
    }
}

/// The sequences scheduled for one step.
#[derive(Debug, Clone, Default)]
pub struct SchedulerOutput {
    /// Sequences whose prompt runs this step.
    pub prefill_sequences: Vec<Arc<Sequence>>,
    /// Sequences that generate one token this step.
    pub decode_sequences: Vec<Arc<Sequence>>,
    /// Tokens in the batch.
    pub total_tokens: u32,
}

impl SchedulerOutput {
    /// Nothing is scheduled.
    pub fn is_empty(&self) -> (r: bool)
        ensures
            r == (self.prefill_sequences@.len() == 0 && self.decode_sequences@.len() == 0),
    {
        self.prefill_sequences.len() == 0 && self.decode_sequences.len() == 0
    }

    /// Number of scheduled sequences.
    pub fn num_sequences(&self) -> (r: usize)
        requires
            self.prefill_sequences@.len() + self.decode_sequences@.len() <= usize::MAX,
        ensures
            r == self.prefill_sequences@.len() + self.decode_sequences@.len(),
    {
        self.prefill_sequences.len() + self.decode_sequences.len()
    }
}

/// The data of one batch execution.
#[derive(Debug, Clone)]
pub struct ExecutionBatch {
    /// Token ids of all sequences, concatenated.
    pub input_tokens: Vec<TokenId>,
    /// Position of each token.
    pub positions: Vec<u32>,
    /// Tokens of each sequence.
    pub seq_lens: Vec<u32>,
    /// Block table of each sequence.
    pub block_tables: Vec<Vec<BlockIdx>>,
    /// Whether each sequence is in prefill.
    pub is_prefill: Vec<bool>,
    /// Sequence ids, to map results back.
    pub seq_ids: Vec<SeqId>,
    /// Context length of each sequence.
    pub context_lens: Vec<u32>,
}

impl Default for ExecutionBatch {
    fn default() -> (r: Self)
        ensures
            r.input_tokens@.len() == 0,
            r.positions@.len() == 0,
            r.seq_lens@.len() == 0,
            r.block_tables@.len() == 0,
            r.is_prefill@.len() == 0,
            r.seq_ids@.len() == 0,
            r.context_lens@.len() == 0,
    {
        Self {
            input_tokens: Vec::new(),
            positions: Vec::new(),
            seq_lens: Vec::new(),
            block_tables: Vec::new(),
            is_prefill: Vec::new(),
            seq_ids: Vec::new(),
            context_lens: Vec::new(),
        }
    }
}

/// The value of an execution batch.
#[verifier::ext_equal]
pub struct BatchView {
    pub input_tokens: Seq<TokenId>,
    pub positions: Seq<u32>,
    pub seq_lens: Seq<u32>,
    pub block_tables: Seq<Seq<BlockIdx>>,
    pub is_prefill: Seq<bool>,
    pub seq_ids: Seq<SeqId>,
    pub context_lens: Seq<u32>,
}

impl BatchView {
    /// The batch with no sequence.
    pub open spec fn empty() -> BatchView {
        BatchView {
            input_tokens: Seq::empty(),
            positions: Seq::empty(),
            seq_lens: Seq::empty(),
            block_tables: Seq::empty(),
            is_prefill: Seq::empty(),
            seq_ids: Seq::empty(),
            context_lens: Seq::empty(),
        }
    }
}

impl View for ExecutionBatch {
    type V = BatchView;

    open spec fn view(&self) -> BatchView {
        BatchView {
            input_tokens: self.input_tokens@,
            positions: self.positions@,
            seq_lens: self.seq_lens@,
            block_tables: self.block_tables@.map_values(|t: Vec<BlockIdx>| t@),
            is_prefill: self.is_prefill@,
            seq_ids: self.seq_ids@,
            context_lens: self.context_lens@,
        }
    }
}

impl ExecutionBatch {
    /// No sequence in the batch.
    pub fn is_empty(&self) -> (r: bool)
        ensures
            r == (self.seq_ids@.len() == 0),
    {
        self.seq_ids.len() == 0
    }

    /// Number of sequences.
    pub fn num_sequences(&self) -> (r: usize)
        ensures
            r == self.seq_ids@.len(),
    {
        self.seq_ids.len()
    }

    /// Number of tokens.
    pub fn total_tokens(&self) -> (r: usize)
        ensures
            r == self.input_tokens@.len(),
    {
        self.input_tokens.len()
    }
}

/// The result of one batch execution: one next token per sequence.
#[derive(Debug, Clone)]
pub struct ExecutionOutput {
    /// The next token of each sequence.
    pub next_tokens: Vec<TokenId>,
    /// The sequence each token belongs to.
    pub seq_ids: Vec<SeqId>,
}

impl Default for ExecutionOutput {
    fn default() -> (r: Self)
        ensures
            r.next_tokens@.len() == 0,
            r.seq_ids@.len() == 0,
    {
        Self { next_tokens: Vec::new(), seq_ids: Vec::new() }
    }
}

/// The outcome of a finished request.
#[derive(Debug, Clone)]
pub struct CompletedRequest {
    pub request_id: RequestId,
    /// The prompt, decoded back to text.
    pub input_text: Option<String>,
    /// The generated text.
    pub output_text: String,
    /// The generated tokens.
    pub output_tokens: Vec<TokenId>,
    /// Whether the request completed.
    pub success: bool,
    /// Why it failed.
    pub error: Option<String>,
}


/// The value of a request state, with a failure's reason as characters.
pub enum StateView {
    Pending,
    Prefill,
    Decode,
    Completed,
    Failed(Seq<char>),
}

impl View for RequestState {
    type V = StateView;

    open spec fn view(&self) -> StateView {
        match self {
            RequestState::Pending => StateView::Pending,
            RequestState::Prefill => StateView::Prefill,
            RequestState::Decode => StateView::Decode,
            RequestState::Completed => StateView::Completed,
            RequestState::Failed(msg) => StateView::Failed(msg@),
        }
    }
}

/// The value of a request.
pub struct RequestView {
    pub id: RequestId,
    pub input: Seq<TokenId>,
    pub output: Seq<TokenId>,
    pub params: GenerationParams,
    pub state: StateView,
}

impl View for Request {
    type V = RequestView;

    open spec fn view(&self) -> RequestView {
        RequestView {
            id: self.id,
            input: self.input_tokens@,
            output: self.output_tokens@,
            params: self.params,
            state: self.state@,
        }
    }
}

/// The value of a sequence.
pub struct SequenceView {
    pub seq_id: SeqId,
    pub request: RequestView,
    pub blocks: Seq<LogicalBlock>,
    pub num_computed_tokens: u32,
    pub num_generated_tokens: u32,
}

impl SequenceView {
    /// Prompt length, as the engine counts it, plus generated tokens.
    pub open spec fn context_len(self) -> int {
        (self.request.input.len() as u32) as int + self.num_generated_tokens as int
    }
}

impl View for Sequence {
    type V = SequenceView;

    open spec fn view(&self) -> SequenceView {
        SequenceView {
            seq_id: self.seq_id,
            request: self.request@,
            blocks: self.logical_blocks@,
            num_computed_tokens: self.num_computed_tokens,
            num_generated_tokens: self.num_generated_tokens,
        }
    }
}

/// The values of shared sequences.
pub open spec fn arc_views(v: Seq<Arc<Sequence>>) -> Seq<SequenceView> {
    v.map_values(|a: Arc<Sequence>| (*a)@)
}

/// The values of sequences.
pub open spec fn seq_views(v: Seq<Sequence>) -> Seq<SequenceView> {
    v.map_values(|s: Sequence| s@)
}

/// The values of requests.
pub open spec fn request_views(v: Seq<Request>) -> Seq<RequestView> {
    v.map_values(|r: Request| r@)
}

} // verus!
