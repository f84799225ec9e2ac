//! Batch execution: the host-side data of a batch and the executor interface.
//!
//! [`MockGPUExecutor`] stands in for a device: it checks a batch against the
//! configured limits, lays the batch out in its transfer buffers, and produces
//! one token per sequence from a counter.
use std::sync::Arc;
use vstd::prelude::*;
use vstd::string::StringExecFns;

use crate::config::EngineConfig;
use crate::error::{EngineError, ExecutionError};
use crate::text::{decimal, text_with_two_numbers};
use crate::types::{
    mapped_blocks, BatchView, BlockIdx, ExecutionBatch, ExecutionOutput, SchedulerOutput, SeqId,
    Sequence, SequenceView, TokenId, arc_views,
};

verus! {

/// A host buffer for transfers to the device.
#[derive(Debug, Clone)]
pub struct PinnedBuffer<T> {
    data: Vec<T>,
}

impl<T> View for PinnedBuffer<T> {
    type V = Seq<T>;

    closed spec fn view(&self) -> Seq<T> {
        self.data@
    }
}

impl<T: Clone + Default> PinnedBuffer<T> {
    /// An empty buffer with room for `capacity` values.
    pub fn new(capacity: usize) -> (r: Self)
        ensures
            r@ == Seq::<T>::empty(),
    {
        Self { data: Vec::with_capacity(capacity) }
    }

    /// A buffer holding `data`.
    pub fn from_vec(data: Vec<T>) -> (r: Self)
        ensures
            r@ == data@,
    {
        Self { data }
    }

    /// The values.
    pub fn as_slice(&self) -> (r: &[T])
        ensures
            r@ == self@,
    {
        self.data.as_slice()
    }

    /// The values, for writing in place.
    pub fn as_mut_slice(&mut self) -> (r: &mut [T])
        ensures
            r@ == old(self)@,
            final(r)@ == final(self)@,
    {
        self.data.as_mut_slice()
    }

    /// Number of values.
    pub fn len(&self) -> (r: usize)
        ensures
            r == self@.len(),
    {
        self.data.len()
    }

    /// Whether the buffer holds no value.
    pub fn is_empty(&self) -> (r: bool)
        ensures
            r == (self@.len() == 0),
    {
        self.data.len() == 0
    }

    /// Removes every value.
    pub fn clear(&mut self)
        ensures
            final(self)@ == Seq::<T>::empty(),
    {
        self.data.clear();
    }

    /// Appends one value.
    pub fn push(&mut self, value: T)
        ensures
            final(self)@ == old(self)@.push(value),
    {
        self.data.push(value);
    }

    /// Appends the values of `values`, in order.
    pub fn extend(&mut self, values: Vec<T>)
        ensures
            final(self)@ == old(self)@ + values@,
    {
        let mut values = values;
        self.data.append(&mut values);
    }
}

/// Sum of the lengths.
pub open spec fn total_len(lens: Seq<u32>) -> int
    decreases lens.len(),
{
    if lens.len() == 0 {
        0
    } else {
        total_len(lens.drop_last()) + lens.last()
    }
}

/// Where each sequence starts in the flattened tokens: 0, then the running
/// sums of the lengths.
pub open spec fn start_locs(lens: Seq<u32>) -> Seq<u32>
    decreases lens.len(),
{
    if lens.len() == 0 {
        seq![0u32]
    } else {
        let p = start_locs(lens.drop_last());
        p.push((p.last() + lens.last()) as u32)
    }
}

/// A block table padded with block 0 to `width` entries; a longer table is
/// left as it is.
pub open spec fn padded(t: Seq<BlockIdx>, width: int) -> Seq<BlockIdx> {
    if t.len() >= width {
        t
    } else {
        t + Seq::new((width - t.len()) as nat, |i: int| 0u32)
    }
}

/// The padded block tables, one after the other.
pub open spec fn flat_tables(ts: Seq<Seq<BlockIdx>>, width: int) -> Seq<BlockIdx>
    decreases ts.len(),
{
    if ts.len() == 0 {
        Seq::empty()
    } else {
        flat_tables(ts.drop_last(), width) + padded(ts.last(), width)
    }
}

/// The running sums of a prefix stay below the sum of the whole.
pub proof fn lemma_total_len_prefix(lens: Seq<u32>, k: int)
    requires
        0 <= k <= lens.len(),
    ensures
        0 <= total_len(lens.take(k)) <= total_len(lens),
    decreases lens.len(),
{
    if lens.len() > 0 {
        if k == lens.len() {
            assert(lens.take(k) =~= lens);
            lemma_total_len_prefix(lens.drop_last(), k - 1);
        } else {
            assert(lens.take(k) =~= lens.drop_last().take(k));
            lemma_total_len_prefix(lens.drop_last(), k);
        }
    }
}

/// The last start location is the sum of the lengths, when that fits.
pub proof fn lemma_start_locs(lens: Seq<u32>)
    requires
        total_len(lens) <= u32::MAX,
    ensures
        start_locs(lens).len() == lens.len() + 1,
        start_locs(lens).last() == total_len(lens),
    decreases lens.len(),
{
    if lens.len() > 0 {
        lemma_total_len_prefix(lens, lens.len() - 1);
        assert(lens.take(lens.len() - 1) =~= lens.drop_last());
        lemma_start_locs(lens.drop_last());
    }
}

/// Law: the start offsets begin at 0 and each next one is the previous
/// plus that sequence's length, so sequence `i` occupies the tokens from
/// its start to the next start.
pub proof fn law_start_locs_running_sum(lens: Seq<u32>)
    requires
        total_len(lens) <= u32::MAX,
    ensures
        start_locs(lens).len() == lens.len() + 1,
        start_locs(lens)[0] == 0,
        forall|i: int| 0 <= i < lens.len() ==> start_locs(lens)[i + 1] == start_locs(lens)[i] + #[trigger] lens[i],
    decreases lens.len(),
{
    lemma_start_locs(lens);
    if lens.len() > 0 {
        let init = lens.drop_last();
        lemma_total_len_prefix(lens, lens.len() - 1);
        assert(lens.take(lens.len() - 1) =~= init);
        law_start_locs_running_sum(init);
        lemma_start_locs(init);
        assert forall|i: int| 0 <= i < lens.len() implies start_locs(lens)[i + 1] == start_locs(lens)[i]
            + #[trigger] lens[i] by {
            if i < init.len() {
                assert(init[i] == lens[i]);
            }
        }
    }
}

/// Law: the flattened block tables give each sequence a row of `width`
/// entries, in order: entry `j` of row `i` is the sequence's block `j`, or 0
/// past the end of its table.
pub proof fn law_flat_tables_rows(ts: Seq<Seq<BlockIdx>>, width: int)
    requires
        width >= 0,
        forall|i: int| 0 <= i < ts.len() ==> (#[trigger] ts[i]).len() <= width,
    ensures
        flat_tables(ts, width).len() == ts.len() * width,
        forall|i: int, j: int|
            0 <= i < ts.len() && 0 <= j < width ==> #[trigger] flat_tables(ts, width)[i * width + j] == (if j
                < ts[i].len() {
                ts[i][j]
            } else {
                0
            }),
    decreases ts.len(),
{
    if ts.len() > 0 {
        let init = ts.drop_last();
        let n = ts.len() - 1;
        assert forall|i: int| 0 <= i < init.len() implies (#[trigger] init[i]).len() <= width by {
            assert(init[i] == ts[i]);
        }
        law_flat_tables_rows(init, width);
        let f0 = flat_tables(init, width);
        let pad = padded(ts.last(), width);
        assert(pad.len() == width);
        assert(ts.len() * width == n * width + width) by (nonlinear_arith)
            requires
                n == ts.len() - 1,
        ;
        assert forall|i: int, j: int| 0 <= i < ts.len() && 0 <= j < width implies #[trigger] flat_tables(
            ts,
            width,
        )[i * width + j] == (if j < ts[i].len() {
            ts[i][j]
        } else {
            0
        }) by {
            if i < n {
                assert(i * width + j < n * width) by (nonlinear_arith)
                    requires
                        0 <= i < n,
                        0 <= j < width,
                ;
                assert(0 <= i * width) by (nonlinear_arith)
                    requires
                        0 <= i,
                        0 <= width,
                ;
                assert(init[i] == ts[i]);
                assert(flat_tables(ts, width)[i * width + j] == f0[i * width + j]);
            } else {
                assert(i * width + j - n * width == j) by (nonlinear_arith)
                    requires
                        i == n,
                ;
                assert(flat_tables(ts, width)[i * width + j] == pad[j]);
            }
        }
    }
}

/// The host buffers of one batch.
#[derive(Debug, Clone)]
pub struct GPUBatchData {
    /// Token ids of all sequences, flattened.
    pub input_ids: PinnedBuffer<TokenId>,
    /// Position of each token.
    pub positions: PinnedBuffer<u32>,
    /// Where each sequence starts in the tokens, then the end.
    pub seq_start_locs: PinnedBuffer<u32>,
    /// Tokens of each sequence.
    pub seq_lens: PinnedBuffer<u32>,
    /// Block tables, each padded to `max_blocks_per_seq`, flattened.
    pub block_tables: PinnedBuffer<BlockIdx>,
    /// Context length of each sequence.
    pub context_lens: PinnedBuffer<u32>,
    /// Width of a padded block table.
    pub max_blocks_per_seq: u32,
}

/// The buffers hold `batch`, laid out with tables `width` wide.
pub open spec fn holds_batch(d: GPUBatchData, batch: BatchView, width: u32) -> bool {
    &&& d.input_ids@ == batch.input_tokens
    &&& d.positions@ == batch.positions
    &&& d.seq_start_locs@ == start_locs(batch.seq_lens)
    &&& d.seq_lens@ == batch.seq_lens
    &&& d.context_lens@ == batch.context_lens
    &&& d.block_tables@ == flat_tables(batch.block_tables, width as int)
    &&& d.max_blocks_per_seq == width
}

/// The buffers hold nothing.
pub open spec fn buffers_empty(d: GPUBatchData) -> bool {
    &&& d.input_ids@.len() == 0
    &&& d.positions@.len() == 0
    &&& d.seq_start_locs@.len() == 0
    &&& d.seq_lens@.len() == 0
    &&& d.block_tables@.len() == 0
    &&& d.context_lens@.len() == 0
}

/// A batch fits the transfer layout: its sequence lengths sum to a `u32`.
pub open spec fn batch_fits(batch: BatchView) -> bool {
    total_len(batch.seq_lens) <= u32::MAX
}

impl GPUBatchData {
    /// Empty buffers sized for `max_batch_size` sequences of up to
    /// `max_blocks_per_seq` blocks.
    pub fn new(max_batch_size: u32, max_blocks_per_seq: u32) -> (r: Self)
        requires
            max_batch_size * max_blocks_per_seq <= u32::MAX,
            max_batch_size + 1 <= usize::MAX,
        ensures
            buffers_empty(r),
            r.max_blocks_per_seq == max_blocks_per_seq,
    {
        Self {
            input_ids: PinnedBuffer::new(4096),
            positions: PinnedBuffer::new(4096),
            seq_start_locs: PinnedBuffer::new(max_batch_size as usize + 1),
            seq_lens: PinnedBuffer::new(max_batch_size as usize),
            block_tables: PinnedBuffer::new((max_batch_size * max_blocks_per_seq) as usize),
            context_lens: PinnedBuffer::new(max_batch_size as usize),
            max_blocks_per_seq,
        }
    }

    /// Lays `batch` out in the buffers (see [`holds_batch`]).
    pub fn prepare(&mut self, batch: &ExecutionBatch)
        requires
            batch_fits(batch@),
        ensures
            holds_batch(*final(self), batch@, old(self).max_blocks_per_seq),
    {
        self.clear();
        self.input_ids.extend(batch.input_tokens.clone());
        self.positions.extend(batch.positions.clone());
        proof {
            assert(batch.input_tokens@ =~= self.input_ids@);
            assert(batch.positions@ =~= self.positions@);
        }
        let ghost lens = batch.seq_lens@;
        let mut cumulative: u32 = 0;
        self.seq_start_locs.push(0);
        proof {
            assert(lens.take(0) =~= Seq::<u32>::empty());
            assert(self.seq_start_locs@ =~= start_locs(lens.take(0)));
        }
        let mut k: usize = 0;
        while k < batch.seq_lens.len()
            invariant
                lens == batch.seq_lens@,
                batch_fits(batch@),
                k <= lens.len(),
                cumulative == total_len(lens.take(k as int)),
                self.seq_start_locs@ == start_locs(lens.take(k as int)),
                self.seq_lens@ == lens.take(k as int),
                self.input_ids@ == batch.input_tokens@,
                self.positions@ == batch.positions@,
                self.block_tables@.len() == 0,
                self.context_lens@.len() == 0,
                self.max_blocks_per_seq == old(self).max_blocks_per_seq,
            decreases lens.len() - k,
        {
            let seq_len = batch.seq_lens[k];
            proof {
                assert(lens.take(k + 1).drop_last() =~= lens.take(k as int));
                lemma_total_len_prefix(lens, k + 1);
                lemma_start_locs(lens.take(k as int));
                lemma_total_len_prefix(lens, k as int);
            }
            cumulative = cumulative + seq_len;
            self.seq_start_locs.push(cumulative);
            self.seq_lens.push(seq_len);
            proof {
                assert(self.seq_lens@ =~= lens.take(k + 1));
            }
            k = k + 1;
        }
        proof {
            assert(lens.take(lens.len() as int) =~= lens);
        }
        self.context_lens.extend(batch.context_lens.clone());
        proof {
            assert(batch.context_lens@ =~= self.context_lens@);
        }
        let ghost tables = batch@.block_tables;
        let width = self.max_blocks_per_seq;
        let mut t: usize = 0;
        proof {
            assert(tables.take(0) =~= Seq::<Seq<BlockIdx>>::empty());
        }
        while t < batch.block_tables.len()
            invariant
                tables == batch@.block_tables,
                t <= tables.len(),
                width == self.max_blocks_per_seq,
                self.max_blocks_per_seq == old(self).max_blocks_per_seq,
                self.block_tables@ == flat_tables(tables.take(t as int), width as int),
                self.input_ids@ == batch.input_tokens@,
                self.positions@ == batch.positions@,
                self.seq_start_locs@ == start_locs(batch.seq_lens@),
                self.seq_lens@ == batch.seq_lens@,
                self.context_lens@ == batch.context_lens@,
            decreases tables.len() - t,
        {
            let block_table = &batch.block_tables[t];
            let ghost before = self.block_tables@;
            let mut j: usize = 0;
            while j < block_table.len()
                invariant
                    j <= block_table@.len(),
                    self.block_tables@ == before + block_table@.take(j as int),
                    self.max_blocks_per_seq == old(self).max_blocks_per_seq,
                    self.input_ids@ == batch.input_tokens@,
                    self.positions@ == batch.positions@,
                    self.seq_start_locs@ == start_locs(batch.seq_lens@),
                    self.seq_lens@ == batch.seq_lens@,
                    self.context_lens@ == batch.context_lens@,
                decreases block_table@.len() - j,
            {
                self.block_tables.push(block_table[j]);
                proof {
                    assert(block_table@.take(j + 1) =~= block_table@.take(j as int).push(block_table@[j as int]));
                }
                j = j + 1;
            }
            proof {
                assert(block_table@.take(block_table@.len() as int) =~= block_table@);
            }
            let ghost unpadded = self.block_tables@;
            let mut pad: usize = block_table.len();
            while pad < width as usize
                invariant
                    block_table@.len() <= pad || pad == block_table@.len(),
                    pad >= block_table@.len(),
                    pad <= width || pad == block_table@.len(),
                    self.block_tables@ == unpadded + Seq::new((pad - block_table@.len()) as nat, |i: int| 0u32),
                    self.max_blocks_per_seq == old(self).max_blocks_per_seq,
                    self.input_ids@ == batch.input_tokens@,
                    self.positions@ == batch.positions@,
                    self.seq_start_locs@ == start_locs(batch.seq_lens@),
                    self.seq_lens@ == batch.seq_lens@,
                    self.context_lens@ == batch.context_lens@,
                decreases width - pad,
            {
                self.block_tables.push(0);
                proof {
                    assert(unpadded + Seq::new((pad + 1 - block_table@.len()) as nat, |i: int| 0u32)
                        =~= (unpadded + Seq::new((pad - block_table@.len()) as nat, |i: int| 0u32)).push(0u32));
                }
                pad = pad + 1;
            }
            proof {
                assert(tables[t as int] == block_table@);
                assert(tables.take(t + 1).drop_last() =~= tables.take(t as int));
                if block_table@.len() >= width {
                    assert(Seq::new((pad - block_table@.len()) as nat, |i: int| 0u32) =~= Seq::<u32>::empty());
                    assert(self.block_tables@ =~= before + padded(block_table@, width as int));
                } else {
                    assert(self.block_tables@ =~= before + padded(block_table@, width as int));
                }
            }
            t = t + 1;
        }
        proof {
            assert(tables.take(tables.len() as int) =~= tables);
        }
    }

    /// Empties every buffer.
    fn clear(&mut self)
        ensures
            buffers_empty(*final(self)),
            final(self).max_blocks_per_seq == old(self).max_blocks_per_seq,
    {
        self.input_ids.clear();
        self.positions.clear();
        self.seq_start_locs.clear();
        self.seq_lens.clear();
        self.block_tables.clear();
        self.context_lens.clear();
    }
}

/// The operations of a batch executor.
pub trait GPUExecutorTrait: Send {
    /// Runs one batch and returns one next token per sequence.
    fn execute(&mut self, batch: &ExecutionBatch) -> (r: Result<ExecutionOutput, ExecutionError>)
        requires
            batch_fits(batch@),
    ;

    /// Captures a graph for decode batches of `batch_size` sequences.
    fn capture_decode_graph(&mut self, batch_size: u32) -> Result<(), ExecutionError>;

    /// Runs one batch with the captured graph.
    fn execute_graph(&mut self, batch: &ExecutionBatch) -> (r: Result<ExecutionOutput, ExecutionError>)
        requires
            batch_fits(batch@),
    ;

    /// Whether a graph has been captured.
    fn has_captured_graph(&self) -> bool;
}

/// The tokens the mock produces for `n` sequences, from counter `start`: the
/// counter modulo the vocabulary size, the counter wrapping at `u32::MAX`.
pub open spec fn mock_tokens(start: u32, n: nat, vocab: u32) -> Seq<TokenId> {
    Seq::new(n, |i: int| (((start + i) % 0x1_0000_0000) % (vocab as int)) as u32)
}

/// Law: the mock's tokens are ids of the vocabulary, one per sequence, and
/// consecutive sequences get consecutive ids (wrapping at the vocabulary's
/// end).
pub proof fn law_mock_tokens_in_vocab(start: u32, n: nat, vocab: u32)
    requires
        vocab > 0,
    ensures
        mock_tokens(start, n, vocab).len() == n,
        forall|i: int| 0 <= i < n ==> #[trigger] mock_tokens(start, n, vocab)[i] < vocab,
        forall|i: int|
            0 <= i && i + 1 < n && start + i + 1 < 0x1_0000_0000 ==> #[trigger] mock_tokens(start, n, vocab)[i + 1] == (
            mock_tokens(start, n, vocab)[i] + 1) % (vocab as int),
{
    assert forall|i: int|
        0 <= i && i + 1 < n && start + i + 1 < 0x1_0000_0000 implies #[trigger] mock_tokens(start, n, vocab)[i + 1] == (
        mock_tokens(start, n, vocab)[i] + 1) % (vocab as int) by {
        let a = start + i;
        assert((a + 1) % 0x1_0000_0000 == a + 1);
        assert(a % 0x1_0000_0000 == a);
        vstd::arithmetic::div_mod::lemma_add_mod_noop(a, 1, vocab as int);
        vstd::arithmetic::div_mod::lemma_mod_twice(a, vocab as int);
        if vocab > 1 {
            vstd::arithmetic::div_mod::lemma_small_mod(1, vocab as nat);
        } else {
            assert((a + 1) % (vocab as int) == 0 && ((a % (vocab as int)) + 1) % (vocab as int) == 0) by (nonlinear_arith)
                requires
                    vocab == 1,
            ;
        }
    }
}

/// The message of a batch with too many sequences.
pub open spec fn batch_size_message(n: nat, max: u32) -> Seq<char> {
    "Batch size "@ + decimal(n) + " exceeds max "@ + decimal(max as nat)
}

/// The message of a batch with too many tokens.
pub open spec fn total_tokens_message(n: nat, max: u32) -> Seq<char> {
    "Total tokens "@ + decimal(n) + " exceeds max "@ + decimal(max as nat)
}

/// A stand-in for a device: checks the batch, lays it out in its buffers and
/// produces one token per sequence from a counter.
#[derive(Debug)]
pub struct MockGPUExecutor {
    config: EngineConfig,
    batch_data: GPUBatchData,
    graph_captured: bool,
    captured_batch_size: u32,
    vocab_size: u32,
    token_counter: u32,
}

impl MockGPUExecutor {
    /// Tokens are reduced modulo a non-empty vocabulary.
    #[verifier::type_invariant]
    closed spec fn inv(&self) -> bool {
        self.vocab_size > 0
    }

    /// The configuration.
    pub closed spec fn spec_config(&self) -> EngineConfig {
        self.config
    }

    /// The next value of the token counter.
    pub closed spec fn counter(&self) -> u32 {
        self.token_counter
    }

    /// The vocabulary size tokens are reduced modulo.
    pub closed spec fn vocab(&self) -> u32 {
        self.vocab_size
    }

    /// Whether a graph was captured.
    pub closed spec fn captured(&self) -> bool {
        self.graph_captured
    }

    /// The batch size of the captured graph.
    pub closed spec fn captured_size(&self) -> u32 {
        self.captured_batch_size
    }

    /// The transfer buffers.
    pub closed spec fn buffers(&self) -> GPUBatchData {
        self.batch_data
    }

    /// An executor for `config` over a vocabulary of `vocab_size` tokens, with
    /// its counter at 100 and no graph.
    pub fn new(config: EngineConfig, vocab_size: u32) -> (r: Self)
        requires
            config.block_size > 0,
            config.max_model_len / config.block_size + 1 <= u32::MAX,
            config.max_batch_size * (config.max_model_len / config.block_size + 1) <= u32::MAX,
            config.max_batch_size + 1 <= usize::MAX,
            vocab_size > 0,
        ensures
            r.spec_config() == config,
            r.vocab() == vocab_size,
            r.counter() == 100,
            !r.captured(),
            r.captured_size() == 0,
            buffers_empty(r.buffers()),
            r.buffers().max_blocks_per_seq == config.max_model_len / config.block_size + 1,
    {
        let max_blocks_per_seq = config.max_model_len / config.block_size + 1;
        let batch_data = GPUBatchData::new(config.max_batch_size, max_blocks_per_seq);
        Self {
            config,
            batch_data,
            graph_captured: false,
            captured_batch_size: 0,
            vocab_size,
            token_counter: 100,
        }
    }

    /// The counter's value modulo the vocabulary size; the counter then
    /// advances, wrapping.
    fn generate_token(&mut self) -> (r: TokenId)
        ensures
            r == old(self).token_counter % old(self).vocab_size,
            final(self).token_counter == (old(self).token_counter + 1) % 0x1_0000_0000,
            final(self).config == old(self).config,
            final(self).batch_data == old(self).batch_data,
            final(self).vocab_size == old(self).vocab_size,
            final(self).graph_captured == old(self).graph_captured,
            final(self).captured_batch_size == old(self).captured_batch_size,
    {
        proof {
            use_type_invariant(&*self);
        }
        let token = self.token_counter % self.vocab_size;
        self.token_counter = self.token_counter.wrapping_add(1);
        token
    }

    /// Checks a non-empty batch against `max_batch_size` and `max_total_tokens`.
    fn validate_batch(&self, batch: &ExecutionBatch) -> (r: Result<(), ExecutionError>)
        ensures
            ({
                let n = batch.seq_ids@.len();
                let t = batch.input_tokens@.len();
                let lim = self.config.limits();
                if n > 0 && n > lim.max_batch_size {
                    r matches Err(ExecutionError::KernelLaunchFailed(m)) && m@ == batch_size_message(n, lim.max_batch_size)
                } else if n > 0 && t > lim.max_total_tokens {
                    r matches Err(ExecutionError::KernelLaunchFailed(m)) && m@ == total_tokens_message(t, lim.max_total_tokens)
                } else {
                    r is Ok
                }
            }),
    {
        if batch.is_empty() {
            return Ok(());
        }
        proof {
            reveal_strlit("Batch size ");
            reveal_strlit("Total tokens ");
            reveal_strlit(" exceeds max ");
        }
        if batch.num_sequences() > self.config.max_batch_size as usize {
            return Err(
                ExecutionError::KernelLaunchFailed(
                    text_with_two_numbers(
                        "Batch size ",
                        batch.num_sequences() as u64,
                        " exceeds max ",
                        self.config.max_batch_size as u64,
                    ),
                ),
            );
        }
        if batch.total_tokens() > self.config.max_total_tokens as usize {
            return Err(
                ExecutionError::KernelLaunchFailed(
                    text_with_two_numbers(
                        "Total tokens ",
                        batch.total_tokens() as u64,
                        " exceeds max ",
                        self.config.max_total_tokens as u64,
                    ),
                ),
            );
        }
        Ok(())
    }
}

impl GPUExecutorTrait for MockGPUExecutor {
    /// Checks the batch (see `validate_batch`); an empty batch gives an empty
    /// output; otherwise the batch is laid out in the buffers and each
    /// sequence receives the next counter token (see [`mock_tokens`]).
    fn execute(&mut self, batch: &ExecutionBatch) -> (r: Result<ExecutionOutput, ExecutionError>)
        ensures
            final(self).spec_config() == old(self).spec_config(),
            final(self).vocab() == old(self).vocab(),
            final(self).captured() == old(self).captured(),
            final(self).captured_size() == old(self).captured_size(),
            ({
                let n = batch.seq_ids@.len();
                let t = batch.input_tokens@.len();
                let lim = old(self).spec_config().limits();
                if n > 0 && n > lim.max_batch_size {
                    &&& r matches Err(ExecutionError::KernelLaunchFailed(m)) && m@ == batch_size_message(n, lim.max_batch_size)
                    &&& final(self).counter() == old(self).counter()
                } else if n > 0 && t > lim.max_total_tokens {
                    &&& r matches Err(ExecutionError::KernelLaunchFailed(m)) && m@ == total_tokens_message(t, lim.max_total_tokens)
                    &&& final(self).counter() == old(self).counter()
                } else if n == 0 {
                    &&& r matches Ok(o) && o.next_tokens@.len() == 0 && o.seq_ids@.len() == 0
                    &&& final(self).counter() == old(self).counter()
                } else {
                    &&& r matches Ok(o) && o.seq_ids@ == batch.seq_ids@
                        && o.next_tokens@ == mock_tokens(old(self).counter(), n, old(self).vocab())
                    &&& final(self).counter() == (old(self).counter() + n) % 0x1_0000_0000
                    &&& holds_batch(final(self).buffers(), batch@, old(self).buffers().max_blocks_per_seq)
                }
            }),
    {
        proof {
            use_type_invariant(&*self);
        }
        match self.validate_batch(batch) {
            Ok(()) => {},
            Err(e) => {
                return Err(e);
            },
        }
        if batch.is_empty() {
            return Ok(ExecutionOutput::default());
        }
        let mut data = GPUBatchData::new(0, 0);
        std::mem::swap(&mut data, &mut self.batch_data);
        data.prepare(batch);
        std::mem::swap(&mut data, &mut self.batch_data);
        let ghost start = self.token_counter;
        let mut next_tokens: Vec<TokenId> = Vec::new();
        let mut seq_ids: Vec<SeqId> = Vec::new();
        let mut i: usize = 0;
        while i < batch.seq_ids.len()
            invariant
                i <= batch.seq_ids@.len(),
                self.vocab_size > 0,
                self.vocab_size == old(self).vocab_size,
                self.config == old(self).config,
                self.graph_captured == old(self).graph_captured,
                self.captured_batch_size == old(self).captured_batch_size,
                holds_batch(self.batch_data, batch@, old(self).batch_data.max_blocks_per_seq),
                self.token_counter == (start + i) % 0x1_0000_0000,
                start == old(self).token_counter,
                seq_ids@ == batch.seq_ids@.take(i as int),
                next_tokens@ == mock_tokens(start, i as nat, self.vocab_size),
            decreases batch.seq_ids@.len() - i,
        {
            let token = self.generate_token();
            next_tokens.push(token);
            seq_ids.push(batch.seq_ids[i]);
            proof {
                assert(seq_ids@ =~= batch.seq_ids@.take(i + 1));
                assert(next_tokens@ =~= mock_tokens(start, (i + 1) as nat, self.vocab_size));
                assert(self.token_counter == (start + i + 1) % 0x1_0000_0000) by (nonlinear_arith)
                    requires
                        self.token_counter == ((start + i) % 0x1_0000_0000 + 1) % 0x1_0000_0000,
                ;
            }
            i = i + 1;
        }
        proof {
            assert(seq_ids@ =~= batch.seq_ids@);
        }
        Ok(ExecutionOutput { next_tokens, seq_ids })
    }

    /// Refuses a batch size of 0; otherwise records the capture.
    fn capture_decode_graph(&mut self, batch_size: u32) -> (r: Result<(), ExecutionError>)
        ensures
            final(self).spec_config() == old(self).spec_config(),
            final(self).vocab() == old(self).vocab(),
            final(self).counter() == old(self).counter(),
            batch_size == 0 ==> (r matches Err(ExecutionError::KernelLaunchFailed(m))
                && m@ == "Cannot capture graph with batch size 0"@),
            batch_size == 0 ==> final(self).captured() == old(self).captured()
                && final(self).captured_size() == old(self).captured_size(),
            batch_size > 0 ==> r is Ok && final(self).captured() && final(self).captured_size() == batch_size,
    {
        if batch_size == 0 {
            return Err(ExecutionError::KernelLaunchFailed(String::from_str("Cannot capture graph with batch size 0")));
        }
        proof {
            use_type_invariant(&*self);
        }
        self.graph_captured = true;
        self.captured_batch_size = batch_size;
        Ok(())
    }

    /// Without a captured graph an error; otherwise as `execute`.
    fn execute_graph(&mut self, batch: &ExecutionBatch) -> (r: Result<ExecutionOutput, ExecutionError>)
        ensures
            !old(self).captured() ==> (r matches Err(ExecutionError::KernelLaunchFailed(m))
                && m@ == "No CUDA graph captured"@),
            !old(self).captured() ==> *final(self) == *old(self),
    {
        if !self.graph_captured {
            return Err(ExecutionError::KernelLaunchFailed(String::from_str("No CUDA graph captured")));
        }
        self.execute(batch)
    }

    fn has_captured_graph(&self) -> (r: bool)
        ensures
            r == self.captured(),
    {
        self.graph_captured
    }
}

/// The token a decode step feeds: the last generated one, or 0.
pub open spec fn last_output_or_zero(s: SequenceView) -> TokenId {
    if s.request.output.len() > 0 {
        s.request.output.last()
    } else {
        0
    }
}

/// A batch with one more prefill sequence: its whole prompt at positions
/// `0..len`.
pub open spec fn add_prefill(b: BatchView, s: SequenceView) -> BatchView {
    let n = s.request.input.len();
    BatchView {
        input_tokens: b.input_tokens + s.request.input,
        positions: b.positions + Seq::new(n, |i: int| i as u32),
        seq_lens: b.seq_lens.push(n as u32),
        block_tables: b.block_tables.push(mapped_blocks(s.blocks)),
        is_prefill: b.is_prefill.push(true),
        seq_ids: b.seq_ids.push(s.seq_id),
        context_lens: b.context_lens.push(s.context_len() as u32),
    }
}

/// A batch with one more decode sequence: one token at its context length.
pub open spec fn add_decode(b: BatchView, s: SequenceView) -> BatchView {
    BatchView {
        input_tokens: b.input_tokens.push(last_output_or_zero(s)),
        positions: b.positions.push(s.context_len() as u32),
        seq_lens: b.seq_lens.push(1),
        block_tables: b.block_tables.push(mapped_blocks(s.blocks)),
        is_prefill: b.is_prefill.push(false),
        seq_ids: b.seq_ids.push(s.seq_id),
        context_lens: b.context_lens.push(s.context_len() as u32),
    }
}

/// `b` with the prefill sequences `ss`, in order.
pub open spec fn with_prefills(b: BatchView, ss: Seq<SequenceView>) -> BatchView
    decreases ss.len(),
{
    if ss.len() == 0 {
        b
    } else {
        add_prefill(with_prefills(b, ss.drop_last()), ss.last())
    }
}

/// `b` with the decode sequences `ss`, in order.
pub open spec fn with_decodes(b: BatchView, ss: Seq<SequenceView>) -> BatchView
    decreases ss.len(),
{
    if ss.len() == 0 {
        b
    } else {
        add_decode(with_decodes(b, ss.drop_last()), ss.last())
    }
}

/// The batch of a step: the prefill sequences, then the decode sequences.
pub open spec fn batch_for(pre: Seq<SequenceView>, dec: Seq<SequenceView>) -> BatchView {
    with_decodes(with_prefills(BatchView::empty(), pre), dec)
}

/// The prompt lengths, as the engine counts them, summed.
pub open spec fn prompt_total(ss: Seq<SequenceView>) -> int
    decreases ss.len(),
{
    if ss.len() == 0 {
        0
    } else {
        prompt_total(ss.drop_last()) + (ss.last().request.input.len() as u32)
    }
}

/// What adding prefill sequences does to a batch's totals.
proof fn lemma_with_prefills_totals(b: BatchView, ss: Seq<SequenceView>)
    requires
        forall|i: int| 0 <= i < ss.len() ==> (#[trigger] ss[i]).request.input.len() <= u32::MAX,
    ensures
        total_len(with_prefills(b, ss).seq_lens) == total_len(b.seq_lens) + prompt_total(ss),
        with_prefills(b, ss).input_tokens.len() == b.input_tokens.len() + prompt_total(ss),
        with_prefills(b, ss).seq_ids == b.seq_ids + ss.map_values(|s: SequenceView| s.seq_id),
    decreases ss.len(),
{
    if ss.len() > 0 {
        let init = ss.drop_last();
        lemma_with_prefills_totals(b, init);
        let w = with_prefills(b, init);
        let last = ss.last();
        assert(ss[ss.len() - 1].request.input.len() <= u32::MAX);
        assert(w.seq_lens.push(last.request.input.len() as u32).drop_last() =~= w.seq_lens);
        assert(ss.map_values(|s: SequenceView| s.seq_id) =~= init.map_values(|s: SequenceView| s.seq_id).push(last.seq_id));
        assert(b.seq_ids + ss.map_values(|s: SequenceView| s.seq_id) =~= (b.seq_ids + init.map_values(
            |s: SequenceView| s.seq_id,
        )).push(last.seq_id));
    } else {
        assert(b.seq_ids + ss.map_values(|s: SequenceView| s.seq_id) =~= b.seq_ids);
    }
}

/// What adding decode sequences does to a batch's totals.
proof fn lemma_with_decodes_totals(b: BatchView, ss: Seq<SequenceView>)
    ensures
        total_len(with_decodes(b, ss).seq_lens) == total_len(b.seq_lens) + ss.len(),
        with_decodes(b, ss).input_tokens.len() == b.input_tokens.len() + ss.len(),
        with_decodes(b, ss).seq_ids == b.seq_ids + ss.map_values(|s: SequenceView| s.seq_id),
    decreases ss.len(),
{
    if ss.len() > 0 {
        let init = ss.drop_last();
        lemma_with_decodes_totals(b, init);
        let w = with_decodes(b, init);
        let last = ss.last();
        assert(w.seq_lens.push(1u32).drop_last() =~= w.seq_lens);
        assert(ss.map_values(|s: SequenceView| s.seq_id) =~= init.map_values(|s: SequenceView| s.seq_id).push(last.seq_id));
        assert(b.seq_ids + ss.map_values(|s: SequenceView| s.seq_id) =~= (b.seq_ids + init.map_values(
            |s: SequenceView| s.seq_id,
        )).push(last.seq_id));
    } else {
        assert(b.seq_ids + ss.map_values(|s: SequenceView| s.seq_id) =~= b.seq_ids);
    }
}

/// Adding decode sequences appends, for each in order, its last generated
/// token (0 when it has none) and keeps the tokens before.
proof fn lemma_with_decodes_tokens(b: BatchView, ss: Seq<SequenceView>)
    ensures
        with_decodes(b, ss).input_tokens.len() == b.input_tokens.len() + ss.len(),
        forall|j: int| 0 <= j < b.input_tokens.len() ==> #[trigger] with_decodes(b, ss).input_tokens[j] == b.input_tokens[j],
        forall|k: int|
            0 <= k < ss.len() ==> with_decodes(b, ss).input_tokens[b.input_tokens.len() + k] == (if (
            #[trigger] ss[k]).request.output.len() > 0 {
                ss[k].request.output.last()
            } else {
                0
            }),
    decreases ss.len(),
{
    if ss.len() > 0 {
        let init = ss.drop_last();
        lemma_with_decodes_tokens(b, init);
        let prev = with_decodes(b, init);
        let n = b.input_tokens.len();
        assert(with_decodes(b, ss).input_tokens == prev.input_tokens.push(last_output_or_zero(ss.last())));
        assert forall|k: int|
            0 <= k < ss.len() implies with_decodes(b, ss).input_tokens[n + k] == (if (#[trigger] ss[k]).request.output.len()
            > 0 {
            ss[k].request.output.last()
        } else {
            0
        }) by {
            if k < init.len() {
                assert(init[k] == ss[k]);
                assert(with_decodes(b, ss).input_tokens[n + k] == prev.input_tokens[n + k]);
            }
        }
    }
}

/// Law: a decode sequence feeds the step its last generated token (0 when it
/// has generated none): the batch ends with one such token per decode
/// sequence, in order, after the prompts of the prefill sequences.
pub proof fn law_decode_feeds_last_token(pre: Seq<SequenceView>, dec: Seq<SequenceView>)
    ensures
        batch_for(pre, dec).input_tokens.len() >= dec.len(),
        forall|k: int|
            0 <= k < dec.len() ==> batch_for(pre, dec).input_tokens[batch_for(pre, dec).input_tokens.len() - dec.len() + k]
                == (if (#[trigger] dec[k]).request.output.len() > 0 {
                dec[k].request.output.last()
            } else {
                0
            }),
{
    lemma_with_decodes_tokens(with_prefills(BatchView::empty(), pre), dec);
}

/// Law: with prompts whose lengths fit a `u32`, the token of the decode
/// sequence at position `k` sits right after the prompts, at the prompts'
/// total plus `k`.
pub proof fn law_decode_token_position(pre: Seq<SequenceView>, dec: Seq<SequenceView>)
    requires
        forall|i: int| 0 <= i < pre.len() ==> (#[trigger] pre[i]).request.input.len() <= u32::MAX,
    ensures
        forall|k: int|
            0 <= k < dec.len() ==> batch_for(pre, dec).input_tokens[prompt_total(pre) + k] == (if (
            #[trigger] dec[k]).request.output.len() > 0 {
                dec[k].request.output.last()
            } else {
                0
            }),
{
    law_batch_matches_schedule(pre, dec);
    law_decode_feeds_last_token(pre, dec);
}

/// Law: the batch built from a step's prefill and decode sequences holds
/// exactly the tokens the step counted (each prompt whole, one token per
/// decode sequence), both as flattened tokens and as summed lengths, and
/// runs the prefill sequences first, then the decode sequences, in order.
/// (A prompt's length is counted as a `u32`, so each must fit one.)
pub proof fn law_batch_matches_schedule(pre: Seq<SequenceView>, dec: Seq<SequenceView>)
    requires
        forall|i: int| 0 <= i < pre.len() ==> (#[trigger] pre[i]).request.input.len() <= u32::MAX,
    ensures
        batch_for(pre, dec).input_tokens.len() == prompt_total(pre) + dec.len(),
        total_len(batch_for(pre, dec).seq_lens) == prompt_total(pre) + dec.len(),
        batch_for(pre, dec).seq_ids == pre.map_values(|s: SequenceView| s.seq_id) + dec.map_values(
            |s: SequenceView| s.seq_id,
        ),
{
    let e = BatchView::empty();
    lemma_with_prefills_totals(e, pre);
    lemma_with_decodes_totals(with_prefills(e, pre), dec);
    assert(e.seq_ids + pre.map_values(|s: SequenceView| s.seq_id) =~= pre.map_values(|s: SequenceView| s.seq_id));
}

/// The context length of the sequence fits a `u32`.
pub open spec fn context_fits(s: SequenceView) -> bool {
    s.context_len() <= u32::MAX
}

/// The batch of the sequences a step scheduled: prefill sequences first,
/// each with its whole prompt, then decode sequences, each with the token it
/// feeds; every sequence with its block table and context length.
pub fn build_execution_batch(scheduler_output: &SchedulerOutput) -> (r: ExecutionBatch)
    requires
        forall|i: int| 0 <= i < scheduler_output.prefill_sequences@.len()
            ==> context_fits(#[trigger] arc_views(scheduler_output.prefill_sequences@)[i]),
        forall|i: int| 0 <= i < scheduler_output.decode_sequences@.len()
            ==> context_fits(#[trigger] arc_views(scheduler_output.decode_sequences@)[i]),
    ensures
        r@ == batch_for(arc_views(scheduler_output.prefill_sequences@), arc_views(scheduler_output.decode_sequences@)),
        total_len(r@.seq_lens) == prompt_total(arc_views(scheduler_output.prefill_sequences@))
            + scheduler_output.decode_sequences@.len(),
        r.input_tokens@.len() >= scheduler_output.decode_sequences@.len(),
        forall|k: int|
            0 <= k < scheduler_output.decode_sequences@.len() ==> r.input_tokens@[r.input_tokens@.len()
                - scheduler_output.decode_sequences@.len() + k] == (if (
            #[trigger] scheduler_output.decode_sequences@[k]).request.output_tokens@.len() > 0 {
                scheduler_output.decode_sequences@[k].request.output_tokens@.last()
            } else {
                0
            }),
{
    let ghost pre = arc_views(scheduler_output.prefill_sequences@);
    let ghost dec = arc_views(scheduler_output.decode_sequences@);
    let mut batch = ExecutionBatch::default();
    proof {
        assert(batch@ =~= BatchView::empty());
        assert(pre.take(0) =~= Seq::<SequenceView>::empty());
    }
    let mut i: usize = 0;
    while i < scheduler_output.prefill_sequences.len()
        invariant
            pre == arc_views(scheduler_output.prefill_sequences@),
            i <= pre.len(),
            forall|k: int| 0 <= k < pre.len() ==> context_fits(#[trigger] pre[k]),
            batch@ == with_prefills(BatchView::empty(), pre.take(i as int)),
            total_len(batch@.seq_lens) == prompt_total(pre.take(i as int)),
        decreases pre.len() - i,
    {
        let seq = &scheduler_output.prefill_sequences[i];
        let ghost s = pre[i as int];
        let ghost before = batch@;
        proof {
            assert(context_fits(pre[i as int]));
        }
        let mut tokens = seq.request.input_tokens.clone();
        proof {
            assert(tokens@ =~= s.request.input);
        }
        let n = tokens.len();
        batch.input_tokens.append(&mut tokens);
        let mut j: usize = 0;
        while j < n
            invariant
                j <= n,
                batch.positions@ == before.positions + Seq::new(j as nat, |k: int| k as u32),
                batch@.input_tokens == before.input_tokens + s.request.input,
                batch@.seq_lens == before.seq_lens,
                batch@.block_tables == before.block_tables,
                batch@.is_prefill == before.is_prefill,
                batch@.seq_ids == before.seq_ids,
                batch@.context_lens == before.context_lens,
            decreases n - j,
        {
            batch.positions.push(j as u32);
            proof {
                assert(before.positions + Seq::new((j + 1) as nat, |k: int| k as u32)
                    =~= (before.positions + Seq::new(j as nat, |k: int| k as u32)).push(j as u32));
            }
            j = j + 1;
        }
        batch.seq_lens.push(n as u32);
        batch.is_prefill.push(true);
        batch.seq_ids.push(seq.seq_id);
        batch.context_lens.push(seq.context_len());
        batch.block_tables.push(seq.get_block_table());
        proof {
            assert(pre.take(i + 1).drop_last() =~= pre.take(i as int));
            assert(batch@.block_tables =~= before.block_tables.push(mapped_blocks(s.blocks)));
            assert(batch@ =~= add_prefill(before, s));
            assert(batch@.seq_lens.drop_last() =~= before.seq_lens);
        }
        i = i + 1;
    }
    proof {
        assert(pre.take(pre.len() as int) =~= pre);
        assert(dec.take(0) =~= Seq::<SequenceView>::empty());
    }
    let ghost mid = batch@;
    let mut k: usize = 0;
    while k < scheduler_output.decode_sequences.len()
        invariant
            dec == arc_views(scheduler_output.decode_sequences@),
            k <= dec.len(),
            forall|x: int| 0 <= x < dec.len() ==> context_fits(#[trigger] dec[x]),
            batch@ == with_decodes(mid, dec.take(k as int)),
            total_len(batch@.seq_lens) == prompt_total(pre) + k,
        decreases dec.len() - k,
    {
        let seq = &scheduler_output.decode_sequences[k];
        let ghost s = dec[k as int];
        let ghost before = batch@;
        proof {
            assert(context_fits(dec[k as int]));
        }
        let context_len = seq.context_len();
        let n_out = seq.request.output_tokens.len();
        let last_token: TokenId = if n_out > 0 {
            seq.request.output_tokens[n_out - 1]
        } else {
            0
        };
        batch.input_tokens.push(last_token);
        batch.positions.push(context_len);
        batch.seq_lens.push(1);
        batch.is_prefill.push(false);
        batch.seq_ids.push(seq.seq_id);
        batch.context_lens.push(context_len);
        batch.block_tables.push(seq.get_block_table());
        proof {
            assert(dec.take(k + 1).drop_last() =~= dec.take(k as int));
            assert(batch@.block_tables =~= before.block_tables.push(mapped_blocks(s.blocks)));
            assert(batch@ =~= add_decode(before, s));
            assert(batch@.seq_lens.drop_last() =~= before.seq_lens);
        }
        k = k + 1;
    }
    proof {
        assert(dec.take(dec.len() as int) =~= dec);
        law_decode_feeds_last_token(pre, dec);
        assert(batch.input_tokens@ == batch@.input_tokens);
        assert forall|k: int|
            0 <= k < scheduler_output.decode_sequences@.len() implies batch.input_tokens@[batch.input_tokens@.len()
                - scheduler_output.decode_sequences@.len() + k] == (if (
            #[trigger] scheduler_output.decode_sequences@[k]).request.output_tokens@.len() > 0 {
                scheduler_output.decode_sequences@[k].request.output_tokens@.last()
            } else {
                0
            }) by {
            assert(dec[k].request.output == scheduler_output.decode_sequences@[k].request.output_tokens@);
            assert(dec[k] == arc_views(scheduler_output.decode_sequences@)[k]);
        }
    }
    batch
}

/// The executor's transfer buffers can be sized for `config`: the block
/// table of every batch slot, and the batch itself, fit their counters.
pub open spec fn executor_fits(config: EngineConfig) -> bool {
    &&& config.max_model_len / config.block_size + 1 <= u32::MAX
    &&& config.max_batch_size * (config.max_model_len / config.block_size + 1) <= u32::MAX
    &&& config.max_batch_size + 1 <= usize::MAX
}

/// The executor an engine uses by default: a [`MockGPUExecutor`] over
/// `vocab_size` tokens, when the vocabulary is not empty and its buffers can
/// be sized for `config`.
pub fn create_default_gpu_executor(config: EngineConfig, vocab_size: u32) -> (r: Result<MockGPUExecutor, EngineError>)
    requires
        config.block_size > 0,
    ensures
        (r is Ok) == (vocab_size > 0 && executor_fits(config)),
        r matches Ok(e) ==> e.vocab() == vocab_size && e.counter() == 100
            && e.spec_config() == config,
{
    if vocab_size == 0 {
        return Err(EngineError::Execution(ExecutionError::KernelLaunchFailed(String::from_str("vocabulary is empty"))));
    }
    let per_seq = config.max_model_len / config.block_size;
    let too_big = if per_seq == u32::MAX {
        true
    } else {
        let a = config.max_batch_size as u64;
        let b = (per_seq + 1) as u64;
        proof {
            assert(a * b <= u32::MAX as int * u32::MAX as int) by (nonlinear_arith)
                requires
                    a <= u32::MAX,
                    b <= u32::MAX,
            ;
            assert(a * b == config.max_batch_size * (per_seq + 1));
        }
        a * b > u32::MAX as u64 || a >= usize::MAX as u64
    };
    if too_big {
        return Err(
            EngineError::Execution(
                ExecutionError::KernelLaunchFailed(String::from_str("executor buffers do not fit this configuration")),
            ),
        );
    }
    Ok(MockGPUExecutor::new(config, vocab_size))
}

} // verus!
