//! The inference engine: the orchestrator of tokenizer, scheduler and
//! executor.
//!
//! A step schedules a batch, runs it (retrying a batch that timed out, up to
//! `max_retry_attempts` times), records the generated tokens, streams them
//! through each request's incremental decoder, and drains the requests that
//! reached a terminal state.
use std::collections::HashMap;
use vstd::prelude::*;
use vstd::string::{StrSliceExecFns, StringExecFns};

use crate::config::{config_error, EngineConfig, Limits, TokenizerKind};
use crate::error::{EngineError, ExecutionError, ValidationError};
use crate::gpu_executor::{
    batch_fits, build_execution_batch, create_default_gpu_executor, executor_fits, GPUExecutorTrait,
};
use crate::scheduler::{
    with_state, add_request_result, cancel_reason, cancel_target, fail_all_view, fail_view, schedule_phases, schedule_view, sched_inv, seq_ids,
    update_view, SchedView, Scheduler, SchedulerTrait, held_requests, law_schedule_keeps_requests,
    lemma_fail_view_held, lemma_fail_all_view_held, lemma_update_view_held, lemma_fail_pending_held,
    done_rids, lemma_done_rids_append, lemma_drain_held,
};
use vstd::multiset::Multiset;
use crate::text::concat_text;
use crate::tokenizer::{
    not_loaded_message, simple_decode, simple_encode, BoxedDecoder, SimpleTokenizer,
    TokenizerTrait,
};
use crate::types::{
    arc_views, params_error, CompletedRequest, ExecutionBatch, ExecutionOutput, GenerationParams, Request,
    RequestId, RequestState, RequestView, SeqId, SequenceView, StateView, TokenId,
};

verus! {

/// Bytes of the UTF-8 encoding of `c`.
pub open spec fn utf8_len(c: char) -> nat {
    let u = c as u32;
    if u < 0x80 {
        1
    } else if u < 0x800 {
        2
    } else if u < 0x10000 {
        3
    } else {
        4
    }
}

/// Bytes of the UTF-8 encoding of `s`.
pub open spec fn byte_len(s: Seq<char>) -> nat
    decreases s.len(),
{
    if s.len() == 0 {
        0
    } else {
        byte_len(s.drop_last()) + utf8_len(s.last())
    }
}

/// `pat` occurs in `text` at character `i`.
pub open spec fn occurs_at(text: Seq<char>, pat: Seq<char>, i: int) -> bool {
    0 <= i && i + pat.len() <= text.len() && text.subrange(i, i + pat.len()) == pat
}

/// The byte offset of the first occurrence of `pat` in `text`, if any.
#[verifier::opaque]
pub open spec fn spec_find(text: Seq<char>, pat: Seq<char>) -> Option<nat> {
    if exists|i: int| occurs_at(text, pat, i) {
        let i = choose|i: int| occurs_at(text, pat, i) && forall|j: int| 0 <= j < i ==> !occurs_at(text, pat, j);
        Some(byte_len(text.take(i)))
    } else {
        None
    }
}

/// Calls `str::find`: the byte index of the first match of `pat` in `text`,
/// which is the byte offset of its first occurrence as characters.
#[verifier::external_body]
fn str_find(text: &str, pat: &str) -> (r: Option<usize>)
    ensures
        match r {
            Some(b) => spec_find(text@, pat@) == Some(b as nat),
            None => spec_find(text@, pat@) is None,
        },
{
    text.find(pat)
}

/// Calls `str::len`: the length of the UTF-8 encoding, in bytes.
#[verifier::external_body]
fn str_byte_len(s: &str) -> (r: usize)
    ensures
        r == byte_len(s@),
{
    s.len()
}

/// The earliest byte offset at which one of the non-empty `stops` occurs in
/// `text`.
pub open spec fn stop_hit(text: Seq<char>, stops: Seq<Seq<char>>) -> Option<nat>
    decreases stops.len(),
{
    if stops.len() == 0 {
        None
    } else {
        let rest = stop_hit(text, stops.drop_last());
        let here = if stops.last().len() == 0 {
            None
        } else {
            spec_find(text, stops.last())
        };
        match (rest, here) {
            (Some(a), Some(b)) => Some(if a <= b { a } else { b }),
            (Some(a), None) => Some(a),
            (None, h) => h,
        }
    }
}

/// Law: the stop position is the earliest hit. When it is `Some(b)`, some
/// non-empty stop first occurs in `text` at byte `b`, and no non-empty stop
/// first occurs before `b` (so none occurs anywhere before it); it is `None`
/// exactly when no non-empty stop occurs in `text`.
pub proof fn law_stop_hit_earliest(text: Seq<char>, stops: Seq<Seq<char>>)
    ensures
        stop_hit(text, stops) matches Some(b) ==> exists|k: int|
            0 <= k < stops.len() && (#[trigger] stops[k]).len() > 0 && spec_find(text, stops[k]) == Some(b),
        forall|k: int|
            0 <= k < stops.len() && (#[trigger] stops[k]).len() > 0 && spec_find(text, stops[k]) is Some
                ==> (stop_hit(text, stops) matches Some(b) && b <= spec_find(text, stops[k])->0),
        stop_hit(text, stops) is None <==> forall|k: int|
            0 <= k < stops.len() && (#[trigger] stops[k]).len() > 0 ==> spec_find(text, stops[k]) is None,
    decreases stops.len(),
{
    if stops.len() > 0 {
        let init = stops.drop_last();
        law_stop_hit_earliest(text, init);
        let n = stops.len() - 1;
        assert forall|k: int| 0 <= k < init.len() implies #[trigger] init[k] == stops[k] by {}
        if let Some(b) = stop_hit(text, stops) {
            if stop_hit(text, init) == Some(b) {
                let k = choose|k: int|
                    0 <= k < init.len() && (#[trigger] init[k]).len() > 0 && spec_find(text, init[k]) == Some(b);
                assert(stops[k] == init[k]);
            } else {
                assert(stops[n] == stops.last());
            }
        }
        assert forall|k: int|
            0 <= k < stops.len() && (#[trigger] stops[k]).len() > 0 && spec_find(text, stops[k]) is Some implies
            (stop_hit(text, stops) matches Some(b) && b <= spec_find(text, stops[k])->0) by {
            if k < n {
                assert(init[k] == stops[k]);
            } else {
                assert(stops[k] == stops.last());
            }
        }
        if stop_hit(text, stops) is None {
            assert forall|k: int| 0 <= k < stops.len() && (#[trigger] stops[k]).len() > 0 implies spec_find(
                text,
                stops[k],
            ) is None by {
                if k < n {
                    assert(init[k] == stops[k]);
                } else {
                    assert(stops[k] == stops.last());
                }
            }
        } else {
            if forall|k: int| 0 <= k < stops.len() && (#[trigger] stops[k]).len() > 0 ==> spec_find(text, stops[k]) is None {
                assert forall|k: int| 0 <= k < init.len() && (#[trigger] init[k]).len() > 0 implies spec_find(
                    text,
                    init[k],
                ) is None by {
                    assert(init[k] == stops[k]);
                }
                assert(stops[n] == stops.last());
            }
        }
    }
}

/// The views of strings.
pub open spec fn string_views(ss: Seq<String>) -> Seq<Seq<char>> {
    ss.map_values(|s: String| s@)
}

/// The byte offset of the first stop sequence in `text` (see [`stop_hit`]).
pub fn find_stop_sequence(text: &str, stops: &[String]) -> (r: Option<usize>)
    ensures
        match r {
            Some(b) => stop_hit(text@, string_views(stops@)) == Some(b as nat),
            None => stop_hit(text@, string_views(stops@)) is None,
        },
        r matches Some(b) ==> exists|k: int|
            0 <= k < stops@.len() && (#[trigger] stops@[k])@.len() > 0 && spec_find(text@, stops@[k]@) == Some(
                b as nat,
            ),
        forall|k: int|
            0 <= k < stops@.len() && (#[trigger] stops@[k])@.len() > 0 && spec_find(text@, stops@[k]@) is Some
                ==> (r matches Some(b) && b <= spec_find(text@, stops@[k]@)->0),
        r is None <==> forall|k: int|
            0 <= k < stops@.len() && (#[trigger] stops@[k])@.len() > 0 ==> spec_find(text@, stops@[k]@) is None,
{
    let ghost views = string_views(stops@);
    let mut best: Option<usize> = None;
    let mut i: usize = 0;
    proof {
        assert(views.take(0) =~= Seq::<Seq<char>>::empty());
    }
    while i < stops.len()
        invariant
            views == string_views(stops@),
            i <= stops@.len(),
            match best {
                Some(b) => stop_hit(text@, views.take(i as int)) == Some(b as nat),
                None => stop_hit(text@, views.take(i as int)) is None,
            },
        decreases stops@.len() - i,
    {
        let stop = &stops[i];
        proof {
            assert(views.take(i + 1).drop_last() =~= views.take(i as int));
            assert(views.take(i + 1).last() == stop@);
        }
        if stop.as_str().unicode_len() > 0 {
            match str_find(text, stop.as_str()) {
                Some(pos) => {
                    best = match best {
                        Some(b) => if b <= pos {
                            Some(b)
                        } else {
                            Some(pos)
                        },
                        None => Some(pos),
                    };
                },
                None => {},
            }
        }
        i = i + 1;
    }
    proof {
        assert(views.take(stops@.len() as int) =~= views);
        law_stop_hit_earliest(text@, views);
        assert forall|k: int| 0 <= k < stops@.len() implies #[trigger] views[k] == stops@[k]@ by {}
        if let Some(b) = best {
            let k = choose|k: int|
                0 <= k < views.len() && (#[trigger] views[k]).len() > 0 && spec_find(text@, views[k]) == Some(b as nat);
            assert(views[k] == stops@[k]@);
        }
        assert forall|k: int|
            0 <= k < stops@.len() && (#[trigger] stops@[k])@.len() > 0 && spec_find(text@, stops@[k]@) is Some
                implies (best matches Some(b) && b <= spec_find(text@, stops@[k]@)->0) by {
            assert(views[k] == stops@[k]@);
        }
        if best is None {
            assert forall|k: int| 0 <= k < stops@.len() && (#[trigger] stops@[k])@.len() > 0 implies spec_find(
                text@,
                stops@[k]@,
            ) is None by {
                assert(views[k] == stops@[k]@);
            }
        } else {
            if forall|k: int| 0 <= k < stops@.len() && (#[trigger] stops@[k])@.len() > 0 ==> spec_find(text@, stops@[k]@) is None {
                assert forall|k: int| 0 <= k < views.len() && (#[trigger] views[k]).len() > 0 implies spec_find(
                    text@,
                    views[k],
                ) is None by {
                    assert(views[k] == stops@[k]@);
                }
            }
        }
    }
    best
}

/// The running byte total of the decoded pieces; a failed decoding counts 0.
pub open spec fn piece_total(lens: Seq<Option<usize>>) -> int
    decreases lens.len(),
{
    if lens.len() == 0 {
        0
    } else {
        piece_total(lens.drop_last()) + match lens.last() {
            Some(n) => n as int,
            None => 0,
        }
    }
}

/// Law: the running byte total starts at 0 and each piece adds its length
/// (a failed decoding adds nothing).
pub proof fn law_piece_total_running_sum(lens: Seq<Option<usize>>)
    ensures
        piece_total(lens.take(0)) == 0,
        forall|i: int|
            0 <= i < lens.len() ==> piece_total(lens.take(i + 1)) == piece_total(lens.take(i)) + match #[trigger] lens[i] {
                Some(n) => n as int,
                None => 0int,
            },
{
    assert(lens.take(0) =~= Seq::<Option<usize>>::empty());
    assert forall|i: int| 0 <= i < lens.len() implies piece_total(lens.take(i + 1)) == piece_total(lens.take(i))
        + match #[trigger] lens[i] {
        Some(n) => n as int,
        None => 0int,
    } by {
        assert(lens.take(i + 1).drop_last() =~= lens.take(i));
        assert(lens.take(i + 1).last() == lens[i]);
    }
}

/// The number of leading pieces that end before `offset`: the least `i`
/// whose first `i` pieces reach `offset`, or all of them.
pub open spec fn kept_before(lens: Seq<Option<usize>>, offset: usize, r: int) -> bool {
    &&& 0 <= r <= lens.len()
    &&& r < lens.len() ==> piece_total(lens.take(r)) >= offset
    &&& forall|j: int| 0 <= j < r ==> piece_total(#[trigger] lens.take(j)) < offset
}

/// The number of tokens, with decoded byte lengths `lens`, that lie before
/// byte `offset` (see [`kept_before`]).
pub fn tokens_before_offset(lens: &Vec<Option<usize>>, offset: usize) -> (r: usize)
    ensures
        kept_before(lens@, offset, r as int),
{
    let mut len: usize = 0;
    let mut i: usize = 0;
    proof {
        assert(lens@.take(0) =~= Seq::<Option<usize>>::empty());
    }
    while i < lens.len()
        invariant
            i <= lens@.len(),
            len == (if piece_total(lens@.take(i as int)) <= usize::MAX {
                piece_total(lens@.take(i as int))
            } else {
                usize::MAX as int
            }),
            forall|j: int| 0 <= j < i ==> piece_total(#[trigger] lens@.take(j)) < offset,
        decreases lens@.len() - i,
    {
        if len >= offset {
            return i;
        }
        proof {
            assert(lens@.take(i + 1).drop_last() =~= lens@.take(i as int));
        }
        match lens[i] {
            Some(n) => {
                len = len.saturating_add(n);
            },
            None => {},
        }
        i = i + 1;
    }
    proof {
        assert(lens@.take(lens@.len() as int) =~= lens@);
    }
    i
}

/// The sequence of one token.
pub open spec fn one_token(t: TokenId) -> Seq<TokenId> {
    seq![t]
}

/// Every token of `tokens` is sure to decode on its own.
pub open spec fn decodes_each<T: TokenizerTrait + ?Sized>(tokenizer: &T, tokens: Seq<TokenId>) -> bool {
    forall|i: int| 0 <= i < tokens.len() ==> #[trigger] tokenizer.decodes(one_token(tokens[i]))
}

/// The byte length of the text of each token of `tokens`, decoded on its own.
pub open spec fn piece_lens<T: TokenizerTrait + ?Sized>(tokenizer: &T, tokens: Seq<TokenId>) -> Seq<Option<usize>> {
    Seq::new(tokens.len(), |i: int| Some(byte_len(tokenizer.decoded(one_token(tokens[i]))) as usize))
}

/// The number of `tokens`, decoded one by one, whose text lies before byte
/// `byte_offset`: the tokens to keep so that an output cut there holds no
/// part of a stop sequence (see [`tokens_before_offset`]). Where the
/// tokenizer states how each token decodes, the count is exact; a token that
/// fails to decode counts as no text.
pub fn tokens_before_char(tokens: &[TokenId], tokenizer: &dyn TokenizerTrait, byte_offset: usize) -> (r: usize)
    ensures
        r <= tokens@.len(),
        decodes_each(tokenizer, tokens@) ==> kept_before(piece_lens(tokenizer, tokens@), byte_offset, r as int),
{
    let mut lens: Vec<Option<usize>> = Vec::new();
    let mut i: usize = 0;
    while i < tokens.len()
        invariant
            i <= tokens@.len(),
            lens@.len() == i,
            decodes_each(tokenizer, tokens@) ==> forall|k: int|
                0 <= k < i ==> #[trigger] lens@[k] == piece_lens(tokenizer, tokens@)[k],
        decreases tokens@.len() - i,
    {
        let one = vec![tokens[i]];
        proof {
            assert(one@ =~= one_token(tokens@[i as int]));
        }
        proof {
            if decodes_each(tokenizer, tokens@) {
                assert(tokenizer.decodes(one_token(tokens@[i as int])));
            }
        }
        match tokenizer.try_decode(one.as_slice()) {
            Ok(segment) => lens.push(Some(str_byte_len(segment.as_str()))),
            Err(_) => lens.push(None),
        }
        proof {
            if decodes_each(tokenizer, tokens@) {
                assert(lens@[i as int] == piece_lens(tokenizer, tokens@)[i as int]);
            }
        }
        i = i + 1;
    }
    proof {
        if decodes_each(tokenizer, tokens@) {
            assert(lens@ =~= piece_lens(tokenizer, tokens@));
        }
    }
    tokens_before_offset(&lens, byte_offset)
}

/// A piece of generated text for a request.
pub type StepChunk = (RequestId, String);

/// What one step produced: the requests that reached a terminal state, and
/// the text each request generated.
#[derive(Debug)]
pub struct StepEvents {
    pub completed: Vec<CompletedRequest>,
    pub chunks: Vec<StepChunk>,
}

impl Default for StepEvents {
    fn default() -> (r: Self)
        ensures
            r.completed@.len() == 0,
            r.chunks@.len() == 0,
    {
        StepEvents { completed: Vec::new(), chunks: Vec::new() }
    }
}

/// Runtime counters of an engine.
#[derive(Debug, Clone)]
pub struct EngineMetrics {
    /// Requests submitted.
    pub total_requests: u64,
    /// Requests that completed.
    pub completed_requests: u64,
    /// Requests that failed.
    pub failed_requests: u64,
    /// Tokens generated by finished requests.
    pub total_tokens_generated: u64,
    /// KV pool utilization, in millionths.
    pub memory_utilization: u64,
    /// Sequences in prefill or decode.
    pub active_sequences: u32,
}

impl Default for EngineMetrics {
    fn default() -> (r: Self)
        ensures
            r.total_requests == 0,
            r.completed_requests == 0,
            r.failed_requests == 0,
            r.total_tokens_generated == 0,
            r.memory_utilization == 0,
            r.active_sequences == 0,
    {
        EngineMetrics {
            total_requests: 0,
            completed_requests: 0,
            failed_requests: 0,
            total_tokens_generated: 0,
            memory_utilization: 0,
            active_sequences: 0,
        }
    }
}

/// Steps without progress after which `run` gives up on pending requests.
pub const STALL_LIMIT: u32 = 100;

/// The inference engine.
pub struct InferenceEngine {
    config: EngineConfig,
    tokenizer: Box<dyn TokenizerTrait>,
    scheduler: Scheduler,
    gpu_executor: Box<dyn GPUExecutorTrait>,
    /// The incremental decoder of each live request.
    decoders: HashMap<RequestId, BoxedDecoder>,
    eos_token_id: u32,
    total_requests: u64,
    completed_requests_count: u64,
    failed_requests_count: u64,
    total_tokens_generated: u64,
    next_request_id: RequestId,
    max_steps: u64,
    running: bool,
    /// Steps the last `run` took.
    last_run_steps: Ghost<nat>,
}

impl InferenceEngine {
    /// The engine's invariant.
    pub closed spec fn wf(&self) -> bool {
        &&& self.scheduler.wf()
        &&& self.config.valid()
    }

    /// The scheduler's value.
    pub closed spec fn sched(&self) -> SchedView {
        self.scheduler@
    }

    /// The scheduler's settings.
    pub closed spec fn sched_limits(&self) -> Limits {
        self.scheduler.limits()
    }

    /// The configuration.
    pub closed spec fn spec_config(&self) -> EngineConfig {
        self.config
    }

    /// The id the next accepted request receives.
    pub closed spec fn next_id(&self) -> RequestId {
        self.next_request_id
    }

    /// The end-of-sequence token of the tokenizer.
    pub closed spec fn eos(&self) -> TokenId {
        self.eos_token_id
    }

    /// Requests submitted so far.
    pub closed spec fn submitted(&self) -> u64 {
        self.total_requests
    }

    /// Whether `run` may step.
    pub closed spec fn is_running(&self) -> bool {
        self.running
    }

    /// The engine's tokenizer is sure to encode `text` (see
    /// [`TokenizerTrait::encodes`]).
    pub closed spec fn tok_encodes(&self, text: Seq<char>) -> bool {
        self.tokenizer.encodes(text)
    }

    /// The ids the engine's tokenizer encodes `text` to, where it is sure to.
    pub closed spec fn tok_encoded(&self, text: Seq<char>) -> Seq<TokenId> {
        self.tokenizer.encoded(text)
    }

    /// The engine's tokenizer is sure to decode `tokens`.
    pub closed spec fn tok_decodes(&self, tokens: Seq<TokenId>) -> bool {
        self.tokenizer.decodes(tokens)
    }

    /// The text the engine's tokenizer decodes `tokens` to, where it is sure to.
    pub closed spec fn tok_decoded(&self, tokens: Seq<TokenId>) -> Seq<char> {
        self.tokenizer.decoded(tokens)
    }

    /// Requests that completed, as counted.
    pub closed spec fn completed_count(&self) -> u64 {
        self.completed_requests_count
    }

    /// Requests that failed, as counted.
    pub closed spec fn failed_count(&self) -> u64 {
        self.failed_requests_count
    }

    /// Tokens generated by finished requests, as counted.
    pub closed spec fn tokens_generated(&self) -> u64 {
        self.total_tokens_generated
    }

    /// An engine whose tokenizer field is that of another keeps its rules.
    proof fn lemma_same_tokenizer_kept(a: InferenceEngine, b: InferenceEngine, c: InferenceEngine)
        requires
            same_tokenizer(a, b),
            b.tokenizer == c.tokenizer,
        ensures
            same_tokenizer(a, c),
    {
        assert forall|t: Seq<char>| #[trigger] c.tok_encodes(t) == a.tok_encodes(t) by {
            assert(b.tok_encodes(t) == a.tok_encodes(t));
        }
        assert forall|t: Seq<char>| #[trigger] c.tok_encoded(t) == a.tok_encoded(t) by {
            assert(b.tok_encoded(t) == a.tok_encoded(t));
        }
        assert forall|t: Seq<TokenId>| #[trigger] c.tok_decodes(t) == a.tok_decodes(t) by {
            assert(b.tok_decodes(t) == a.tok_decodes(t));
        }
        assert forall|t: Seq<TokenId>| #[trigger] c.tok_decoded(t) == a.tok_decoded(t) by {
            assert(b.tok_decoded(t) == a.tok_decoded(t));
        }
    }

    /// Keeping the tokenizer's rules is transitive.
    proof fn lemma_same_tokenizer_trans(a: InferenceEngine, b: InferenceEngine, c: InferenceEngine)
        requires
            same_tokenizer(a, b),
            same_tokenizer(b, c),
        ensures
            same_tokenizer(a, c),
    {
        assert forall|t: Seq<char>| #[trigger] c.tok_encodes(t) == a.tok_encodes(t) by {
            assert(b.tok_encodes(t) == a.tok_encodes(t));
        }
        assert forall|t: Seq<char>| #[trigger] c.tok_encoded(t) == a.tok_encoded(t) by {
            assert(b.tok_encoded(t) == a.tok_encoded(t));
        }
        assert forall|t: Seq<TokenId>| #[trigger] c.tok_decodes(t) == a.tok_decodes(t) by {
            assert(b.tok_decodes(t) == a.tok_decodes(t));
        }
        assert forall|t: Seq<TokenId>| #[trigger] c.tok_decoded(t) == a.tok_decoded(t) by {
            assert(b.tok_decoded(t) == a.tok_decoded(t));
        }
    }

    /// The live decoders, by request id.
    pub closed spec fn decoder_map(&self) -> Map<RequestId, BoxedDecoder> {
        self.decoders@
    }

    /// Steps the last `run` took.
    pub closed spec fn steps_of_last_run(&self) -> nat {
        self.last_run_steps@
    }

    /// The live decoder of request `id`.
    pub closed spec fn decoder_of(&self, id: RequestId) -> BoxedDecoder {
        self.decoders@[id]
    }

    /// The requests with a live decoder.
    pub closed spec fn live_decoders(&self) -> Set<RequestId> {
        self.decoders@.dom()
    }

    /// The most steps one `run` takes.
    pub closed spec fn step_limit(&self) -> u64 {
        self.max_steps
    }

    /// One more request can be numbered and queued.
    pub closed spec fn can_submit(&self) -> bool {
        &&& self.next_request_id < u64::MAX
        &&& self.total_requests < u64::MAX
        &&& self.scheduler.room()
    }

    /// Whether one more request can be numbered and queued (see
    /// [`Self::can_submit`]).
    pub fn can_accept_request(&self) -> (r: bool)
        requires
            self.wf(),
        ensures
            r == self.can_submit(),
    {
        self.next_request_id < u64::MAX && self.total_requests < u64::MAX
            && self.scheduler.has_room_for_request()
    }

    /// An engine over `config` with the tokenizer it names, a scheduler and
    /// the default executor. A Hugging Face tokenizer has to be loaded by
    /// the caller and handed to [`Self::with_components`].
    pub fn new(config: EngineConfig) -> (r: Result<Self, EngineError>)
        ensures
            match config_error(config) {
                Some(e) => r == Err::<Self, EngineError>(EngineError::Config(e)),
                None => config.tokenizer.kind == TokenizerKind::HuggingFace ==> (r matches Err(
                    EngineError::Tokenization(m),
                ) && m@ == not_loaded_message()),
            },
            config_error(config) is None && config.tokenizer.kind == TokenizerKind::Simple ==> (r is Ok
                <==> executor_fits(config)),
            r matches Ok(e) ==> e.sched_limits() == config.limits(),
            r matches Ok(e) ==> e.wf() && e.spec_config() == config && e.next_id() == 1
                && e.submitted() == 0 && e.sched().pending.len() == 0 && e.sched().prefill.len() == 0
                && e.sched().decode.len() == 0 && e.sched().completed.len() == 0 && e.can_submit()
                && e.is_running() && e.step_limit() == u64::MAX && e.live_decoders() == Set::<RequestId>::empty(),
            r matches Ok(e) ==> forall|t: Seq<char>|
                #![trigger e.tok_encoded(t)]
                #![trigger e.tok_encodes(t)]
                e.tok_encodes(t) && e.tok_encoded(t) == simple_encode(t, config.special_tokens, true),
            r matches Ok(e) ==> forall|t: Seq<TokenId>|
                #![trigger e.tok_decoded(t)]
                #![trigger e.tok_decodes(t)]
                e.tok_decodes(t) && e.tok_decoded(t) == simple_decode(t, config.special_tokens, true),
    {
        match config.validate() {
            Ok(()) => {},
            Err(e) => {
                return Err(EngineError::Config(e));
            },
        }
        if config.tokenizer.kind != TokenizerKind::Simple {
            // A Hugging Face vocabulary is read by the caller, who builds the
            // engine with `with_components`.
            proof {
                reveal_strlit("tokenizer file was not loaded");
            }
            return Err(EngineError::Tokenization(String::from_str("tokenizer file was not loaded")));
        }
        let simple = SimpleTokenizer::with_special_tokens(config.special_tokens);
        let vocab_size = simple.vocab_size();
        let eos_token_id = simple.eos_token_id();
        let scheduler = Scheduler::new(config.duplicate());
        let gpu_executor = match create_default_gpu_executor(config.duplicate(), vocab_size) {
            Ok(x) => x,
            Err(e) => {
                return Err(e);
            },
        };
        Ok(
            Self {
                config,
                tokenizer: Box::new(simple),
                scheduler,
                gpu_executor: Box::new(gpu_executor),
                decoders: HashMap::new(),
                eos_token_id,
                total_requests: 0,
                completed_requests_count: 0,
                failed_requests_count: 0,
                total_tokens_generated: 0,
                next_request_id: 1,
                max_steps: u64::MAX,
                running: true,
                last_run_steps: Ghost(0),
            },
        )
    }

    /// An engine from given parts.
    pub fn with_components(
        config: EngineConfig,
        tokenizer: Box<dyn TokenizerTrait>,
        scheduler: Scheduler,
        gpu_executor: Box<dyn GPUExecutorTrait>,
    ) -> (r: Result<Self, EngineError>)
        requires
            scheduler.wf(),
        ensures
            match config_error(config) {
                Some(e) => r == Err::<Self, EngineError>(EngineError::Config(e)),
                None => r is Ok,
            },
            r matches Ok(e) ==> e.wf(),
            r matches Ok(e) ==> e.spec_config() == config,
            r matches Ok(e) ==> e.sched() == scheduler@,
            r matches Ok(e) ==> e.next_id() == 1 && e.submitted() == 0,
            r matches Ok(e) ==> (scheduler.room() ==> e.can_submit()),
            r matches Ok(e) ==> e.is_running() && e.step_limit() == u64::MAX && e.live_decoders() == Set::<
                RequestId,
            >::empty(),
    {
        match config.validate() {
            Ok(()) => {},
            Err(e) => {
                return Err(EngineError::Config(e));
            },
        }
        let eos_token_id = tokenizer.eos_token_id();
        let engine = Self {
            config,
            tokenizer,
            scheduler,
            gpu_executor,
            decoders: HashMap::new(),
            eos_token_id,
            total_requests: 0,
            completed_requests_count: 0,
            failed_requests_count: 0,
            total_tokens_generated: 0,
            next_request_id: 1,
            max_steps: u64::MAX,
            running: true,
            last_run_steps: Ghost(0),
        };
        Ok(engine)
    }

    /// Validates and tokenizes a request and queues it; returns its id.
    /// Refused, in this order: invalid parameters; empty text; a failed
    /// tokenization; a prompt over `max_model_len`; a prompt plus
    /// `max_tokens` over `max_model_len`; a refusal of the scheduler (see
    /// [`Self::submit_tokens`] for what follows the tokenization).
    pub fn submit_request(&mut self, text: &str, params: GenerationParams) -> (r: Result<RequestId, EngineError>)
        requires
            old(self).wf(),
            old(self).can_submit(),
        ensures
            final(self).wf(),
            final(self).spec_config() == old(self).spec_config(),
            final(self).sched_limits() == old(self).sched_limits(),
            final(self).eos() == old(self).eos(),
            final(self).step_limit() == old(self).step_limit(),
            final(self).is_running() == old(self).is_running(),
            match params_error(params) {
                Some(e) => r == Err::<RequestId, EngineError>(EngineError::Validation(e)),
                None => text@.len() == 0 ==> r == Err::<RequestId, EngineError>(
                    EngineError::Validation(ValidationError::EmptyInput),
                ),
            },
            params_error(params) is Some || text@.len() == 0 ==> final(self).sched() == old(self).sched()
                && final(self).next_id() == old(self).next_id() && final(self).submitted() == old(
                self,
            ).submitted() && final(self).live_decoders() == old(self).live_decoders(),
            params_error(params) is None && text@.len() > 0 ==> exists|tok: Result<Seq<TokenId>, Seq<char>>|
                #[trigger] admission(*old(self), *final(self), r, tok, params) && (old(self).tok_encodes(text@)
                    ==> tok == Ok::<Seq<TokenId>, Seq<char>>(old(self).tok_encoded(text@))),
            same_tokenizer(*old(self), *final(self)),
    {
        match params.validate() {
            Ok(()) => {},
            Err(e) => {
                return Err(EngineError::Validation(e));
            },
        }
        if text.unicode_len() == 0 {
            return Err(EngineError::Validation(ValidationError::EmptyInput));
        }
        let encoded = self.tokenizer.try_encode(text);
        let ghost tok = tokens_view(encoded);
        let r = self.submit_tokens(encoded, params);
        proof {
            assert(admission(*old(self), *self, r, tok, params));
        }
        r
    }

    /// Queues a request whose prompt tokenized to `tokens`; returns its id
    /// (see [`admission`]): a tokenization error, a prompt over
    /// `max_model_len`, or a prompt plus `max_tokens` over it is refused;
    /// otherwise the scheduler decides.
    pub fn submit_tokens(
        &mut self,
        tokens: Result<Vec<TokenId>, String>,
        params: GenerationParams,
    ) -> (r: Result<RequestId, EngineError>)
        requires
            old(self).wf(),
            old(self).can_submit(),
        ensures
            final(self).wf(),
            final(self).spec_config() == old(self).spec_config(),
            final(self).sched_limits() == old(self).sched_limits(),
            final(self).eos() == old(self).eos(),
            final(self).step_limit() == old(self).step_limit(),
            final(self).is_running() == old(self).is_running(),
            admission(*old(self), *final(self), r, tokens_view(tokens), params),
            same_tokenizer(*old(self), *final(self)),
    {
        let input_tokens = match tokens {
            Ok(t) => t,
            Err(e) => {
                return Err(EngineError::Tokenization(e));
            },
        };
        let prompt_len = input_tokens.len();
        if prompt_len > self.config.max_model_len as usize {
            return Err(EngineError::Validation(ValidationError::InputTooLong(prompt_len, self.config.max_model_len)));
        }
        let total_requested = (prompt_len as u64) + (params.max_tokens as u64);
        if total_requested > self.config.max_model_len as u64 {
            return Err(
                EngineError::Validation(
                    ValidationError::TotalLengthTooLong(total_requested as usize, self.config.max_model_len),
                ),
            );
        }
        let request_id = self.next_request_id;
        let request = Request::new(request_id, input_tokens, params);
        match self.scheduler.add_request(request) {
            Ok(_) => {},
            Err(e) => {
                return Err(EngineError::Scheduler(e));
            },
        }
        self.next_request_id = self.next_request_id + 1;
        self.total_requests = self.total_requests + 1;
        let decoder = self.tokenizer.create_decoder();
        self.decoders.insert(request_id, decoder);
        Ok(request_id)
    }

    /// Runs the batch, retrying it after a timeout up to
    /// `max_retry_attempts` times.
    fn execute_with_retry(&mut self, batch: &ExecutionBatch) -> (r: Result<ExecutionOutput, ExecutionError>)
        requires
            old(self).wf(),
            batch_fits(batch@),
        ensures
            final(self).wf(),
            final(self).sched() == old(self).sched(),
            final(self).sched_limits() == old(self).sched_limits(),
            final(self).spec_config() == old(self).spec_config(),
            final(self).next_id() == old(self).next_id(),
            final(self).submitted() == old(self).submitted(),
            final(self).step_limit() == old(self).step_limit(),
            final(self).is_running() == old(self).is_running(),
            final(self).eos() == old(self).eos(),
            final(self).decoder_map() == old(self).decoder_map(),
            same_tokenizer(*old(self), *final(self)),
            final(self).steps_of_last_run() == old(self).steps_of_last_run(),
            final(self).completed_count() == old(self).completed_count(),
            final(self).failed_count() == old(self).failed_count(),
            final(self).tokens_generated() == old(self).tokens_generated(),
    {
        let mut attempt: u32 = 0;
        loop
            invariant
                self.wf(),
                batch_fits(batch@),
                attempt <= self.config.max_retry_attempts,
                self.sched() == old(self).sched(),
                self.sched_limits() == old(self).sched_limits(),
                self.spec_config() == old(self).spec_config(),
                self.next_id() == old(self).next_id(),
                self.submitted() == old(self).submitted(),
                self.step_limit() == old(self).step_limit(),
                self.is_running() == old(self).is_running(),
                self.eos() == old(self).eos(),
                self.decoders == old(self).decoders,
                self.tokenizer == old(self).tokenizer,
                self.last_run_steps == old(self).last_run_steps,
                self.completed_requests_count == old(self).completed_requests_count,
                self.failed_requests_count == old(self).failed_requests_count,
                self.total_tokens_generated == old(self).total_tokens_generated,
            decreases self.config.max_retry_attempts - attempt,
        {
            match self.gpu_executor.execute(batch) {
                Ok(output) => {
                    return Ok(output);
                },
                Err(ExecutionError::GpuTimeout) => {
                    if attempt < self.config.max_retry_attempts {
                        attempt = attempt + 1;
                    } else {
                        return Err(ExecutionError::GpuTimeout);
                    }
                },
                Err(e) => {
                    return Err(e);
                },
            }
        }
    }
}

/// The value of a tokenization's result.
pub open spec fn tokens_view(t: Result<Vec<TokenId>, String>) -> Result<Seq<TokenId>, Seq<char>> {
    match t {
        Ok(v) => Ok(v@),
        Err(m) => Err(m@),
    }
}

/// Two engines have the same tokenizer rules.
pub open spec fn same_tokenizer(e0: InferenceEngine, e1: InferenceEngine) -> bool {
    &&& forall|t: Seq<char>| #![trigger e1.tok_encodes(t)] e1.tok_encodes(t) == e0.tok_encodes(t)
    &&& forall|t: Seq<char>| #![trigger e1.tok_encoded(t)] e1.tok_encoded(t) == e0.tok_encoded(t)
    &&& forall|t: Seq<TokenId>| #![trigger e1.tok_decodes(t)] e1.tok_decodes(t) == e0.tok_decodes(t)
    &&& forall|t: Seq<TokenId>| #![trigger e1.tok_decoded(t)] e1.tok_decoded(t) == e0.tok_decoded(t)
}

/// What admitting a request whose prompt tokenized to `tok` takes engine
/// `e0` to (`e1`) and returns (`r`): a tokenization error, a prompt over
/// `max_model_len`, or a prompt plus `max_tokens` over it, is refused and
/// changes nothing; otherwise the request, numbered with the next id, goes
/// to the scheduler (see [`add_request_result`]), and the id is returned
/// when the scheduler accepts it.
pub open spec fn admission(
    e0: InferenceEngine,
    e1: InferenceEngine,
    r: Result<RequestId, EngineError>,
    tok: Result<Seq<TokenId>, Seq<char>>,
    params: GenerationParams,
) -> bool {
    let max = e0.spec_config().max_model_len;
    let unchanged = e1.sched() == e0.sched() && e1.next_id() == e0.next_id() && e1.submitted() == e0.submitted()
        && e1.live_decoders() == e0.live_decoders();
    match tok {
        Err(m) => unchanged && (r matches Err(EngineError::Tokenization(e)) && e@ == m),
        Ok(t) => if t.len() > max {
            unchanged && r == Err::<RequestId, EngineError>(
                EngineError::Validation(ValidationError::InputTooLong(t.len() as usize, max)),
            )
        } else if t.len() + params.max_tokens > max {
            unchanged && r == Err::<RequestId, EngineError>(
                EngineError::Validation(ValidationError::TotalLengthTooLong((t.len() + params.max_tokens) as usize, max)),
            )
        } else {
            let request = RequestView {
                id: e0.next_id(),
                input: t,
                output: Seq::empty(),
                params,
                state: StateView::Pending,
            };
            let (sr, w) = add_request_result(e0.sched(), e0.sched_limits(), request);
            &&& e1.sched() == w
            &&& match sr {
                Ok(_) => r == Ok::<RequestId, EngineError>(e0.next_id()) && e1.next_id() == e0.next_id() + 1
                    && e1.submitted() == e0.submitted() + 1 && e1.live_decoders() == e0.live_decoders().insert(
                    e0.next_id(),
                ),
                Err(se) => r == Err::<RequestId, EngineError>(EngineError::Scheduler(se)) && e1.next_id()
                    == e0.next_id() && e1.submitted() == e0.submitted() && e1.live_decoders()
                    == e0.live_decoders(),
            }
        }
    }
}

/// Law: a prompt of `n` tokens is accepted only when `n` plus the requested
/// `max_tokens` fits `max_model_len`; a longer prompt is refused as too long,
/// and one that fits while the total does not is refused for its total; a
/// refused request changes nothing, and an accepted one gets the next id.
pub proof fn law_admission_lengths(
    e0: InferenceEngine,
    e1: InferenceEngine,
    r: Result<RequestId, EngineError>,
    t: Seq<TokenId>,
    params: GenerationParams,
)
    requires
        admission(e0, e1, r, Ok(t), params),
    ensures
        r is Ok ==> t.len() + params.max_tokens <= e0.spec_config().max_model_len && r == Ok::<RequestId, EngineError>(
            e0.next_id(),
        ) && e1.submitted() == e0.submitted() + 1,
        t.len() > e0.spec_config().max_model_len ==> r == Err::<RequestId, EngineError>(
            EngineError::Validation(ValidationError::InputTooLong(t.len() as usize, e0.spec_config().max_model_len)),
        ),
        t.len() <= e0.spec_config().max_model_len && t.len() + params.max_tokens > e0.spec_config().max_model_len
            ==> r == Err::<RequestId, EngineError>(
            EngineError::Validation(
                ValidationError::TotalLengthTooLong(
                    (t.len() + params.max_tokens) as usize,
                    e0.spec_config().max_model_len,
                ),
            ),
        ),
        r is Err ==> e1.next_id() == e0.next_id() && e1.submitted() == e0.submitted() && e1.live_decoders()
            == e0.live_decoders(),
{
}

/// The sequence ids of a step's batch: the scheduled prefill sequences,
/// then the scheduled decode sequences.
pub open spec fn batch_ids(v: SchedView, lim: Limits) -> Seq<SeqId> {
    let (p1, p2, p3) = schedule_phases(v, lim);
    seq_ids(p2.out + p3.out) + seq_ids(p1.out)
}

/// The scheduler can record an execution output of this length.
pub open spec fn output_recordable(o: ExecutionOutput, lim: Limits) -> bool {
    o.seq_ids@.len() + lim.max_model_len <= u32::MAX
}

/// The error a batch fails with: the executor's, or an invalid output.
pub open spec fn execution_error(result: Result<ExecutionOutput, ExecutionError>, lim: Limits) -> ExecutionError {
    match result {
        Ok(_) => ExecutionError::InvalidOutput,
        Err(e) => e,
    }
}

/// The scheduler after the executor answered `result` to the batch `ids`:
/// a recordable output is recorded; otherwise every sequence of the batch
/// fails with the error's message.
pub open spec fn executed_view(
    v: SchedView,
    lim: Limits,
    ids: Seq<SeqId>,
    result: Result<ExecutionOutput, ExecutionError>,
    eos: TokenId,
) -> SchedView {
    match result {
        Ok(o) => if output_recordable(o, lim) {
            update_view(v, o.seq_ids@, o.next_tokens@, eos, lim)
        } else {
            fail_all_view(v, ids, EngineError::Execution(ExecutionError::InvalidOutput).spec_message())
        },
        Err(e) => fail_all_view(v, ids, EngineError::Execution(e).spec_message()),
    }
}

/// The scheduler after request `rid`, if found (see [`cancel_target`]),
/// fails with `reason`.
pub open spec fn fail_request_view(v: SchedView, rid: RequestId, reason: Seq<char>) -> SchedView {
    match cancel_target(v, rid) {
        Some(id) => fail_view(v, id, reason),
        None => v,
    }
}

/// The scheduler after each request of `fs` fails with its reason, in order.
pub open spec fn fail_requests_view(v: SchedView, fs: Seq<(RequestId, Seq<char>)>) -> SchedView
    decreases fs.len(),
{
    if fs.len() == 0 {
        v
    } else {
        fail_request_view(fail_requests_view(v, fs.drop_last()), fs.last().0, fs.last().1)
    }
}

/// The scheduler before the drain of a step from `v`: the batch is
/// scheduled; when it is not empty, the executor's answer `res` is applied;
/// then the requests whose decoders failed, `failed`, fail.
pub open spec fn stepped_view(
    v: SchedView,
    lim: Limits,
    eos: TokenId,
    res: Result<ExecutionOutput, ExecutionError>,
    failed: Seq<(RequestId, Seq<char>)>,
) -> SchedView {
    let s = schedule_view(v, lim);
    let ids = batch_ids(v, lim);
    let after = if ids.len() == 0 {
        s
    } else {
        executed_view(s, lim, ids, res, eos)
    };
    fail_requests_view(after, failed)
}

/// A scheduler with no work and nothing finished holds no request.
proof fn lemma_idle_holds_nothing(v: SchedView)
    requires
        !has_work(v),
        v.completed.len() == 0,
    ensures
        held_requests(v) == Multiset::<RequestId>::empty(),
{
    broadcast use vstd::seq_lib::group_to_multiset_ensures;
    broadcast use vstd::multiset::group_multiset_properties;
    broadcast use vstd::multiset::group_multiset_axioms;

    assert(crate::scheduler::pending_rids(v.pending).len() == 0);
    assert(held_requests(v).len() == 0);
}

/// Failing the requests of `fs` keeps every request held.
proof fn lemma_fail_requests_held(v: SchedView, fs: Seq<(RequestId, Seq<char>)>)
    ensures
        held_requests(fail_requests_view(v, fs)) == held_requests(v),
    decreases fs.len(),
{
    if fs.len() > 0 {
        let u = fail_requests_view(v, fs.drop_last());
        lemma_fail_requests_held(v, fs.drop_last());
        match cancel_target(u, fs.last().0) {
            Some(id) => lemma_fail_view_held(u, id, fs.last().1),
            None => {},
        }
    }
}

/// Law: a step keeps every request the scheduler holds until the drain: it
/// is scheduled, runs, finishes or fails, but is never lost or duplicated.
pub proof fn law_step_keeps_requests(
    v: SchedView,
    lim: Limits,
    eos: TokenId,
    res: Result<ExecutionOutput, ExecutionError>,
    failed: Seq<(RequestId, Seq<char>)>,
)
    ensures
        held_requests(stepped_view(v, lim, eos, res, failed)) == held_requests(v),
{
    let s = schedule_view(v, lim);
    law_schedule_keeps_requests(v, lim);
    let ids = batch_ids(v, lim);
    let after = if ids.len() == 0 {
        s
    } else {
        executed_view(s, lim, ids, res, eos)
    };
    if ids.len() > 0 {
        match res {
            Ok(o) => if output_recordable(o, lim) {
                lemma_update_view_held(s, o.seq_ids@, o.next_tokens@, eos, lim);
            } else {
                lemma_fail_all_view_held(s, ids, EngineError::Execution(ExecutionError::InvalidOutput).spec_message());
            },
            Err(e) => lemma_fail_all_view_held(s, ids, EngineError::Execution(e).spec_message()),
        }
    }
    lemma_fail_requests_held(after, failed);
}

/// The finished requests of `pre` are drained, which leaves `fin`, and
/// reported in order by `cs`.
pub open spec fn drain_reports(cs: Seq<CompletedRequest>, fin: SchedView, pre: SchedView) -> bool {
    &&& fin == (SchedView { completed: Seq::empty(), ..pre })
    &&& cs.len() == pre.completed.len()
    &&& forall|i: int| 0 <= i < cs.len() ==> reports(#[trigger] cs[i], pre.completed[i])
}

/// A step's result against the scheduler before its drain, `pre`, and
/// after it, `fin`: the finished requests are drained and reported in
/// order; an error comes only from a failed batch that finished nothing.
pub open spec fn step_reports(r: Result<StepEvents, EngineError>, fin: SchedView, pre: SchedView) -> bool {
    match r {
        Ok(ev) => drain_reports(ev.completed@, fin, pre),
        Err(e) => drain_reports(Seq::empty(), fin, pre) && e is Execution,
    }
}

/// [`step_reports`] for a step that returns only the finished requests.
pub open spec fn step_list_reports(r: Result<Vec<CompletedRequest>, EngineError>, fin: SchedView, pre: SchedView) -> bool {
    match r {
        Ok(cs) => drain_reports(cs@, fin, pre),
        Err(e) => drain_reports(Seq::empty(), fin, pre) && e is Execution,
    }
}

/// What an engine's report of a finished request says of it: its id and
/// tokens; success only for a completed request; a failed request's reason
/// as its error; and all of it as [`report_fields`] gives it for the result
/// of decoding the output.
pub open spec fn reports(c: CompletedRequest, r: RequestView) -> bool {
    &&& c.request_id == r.id
    &&& c.output_tokens@ == r.output
    &&& c.success ==> r.state == StateView::Completed
    &&& (r.state matches StateView::Failed(m) ==> !c.success && (c.error matches Some(e) && e@ == m))
    &&& exists|d: Result<Seq<char>, Seq<char>>| #[trigger] report_fields(c, r, d)
}

/// The request each sequence of `ss` serves, by sequence id.
pub open spec fn id_map(ss: Seq<SequenceView>) -> Map<SeqId, RequestId>
    decreases ss.len(),
{
    if ss.len() == 0 {
        Map::empty()
    } else {
        id_map(ss.drop_last()).insert(ss.last().seq_id, ss.last().request.id)
    }
}

/// The sequences of a step's batch: the scheduled prefill sequences, then
/// the scheduled decode sequences.
pub open spec fn batch_seqs(v: SchedView, lim: Limits) -> Seq<SequenceView> {
    let (p1, p2, p3) = schedule_phases(v, lim);
    (p2.out + p3.out) + p1.out
}

/// The first `n` entries of an execution output, each as the request its
/// sequence serves (by `m`) and its token; entries of unknown sequences are
/// left out.
pub open spec fn gen_pairs(ids: Seq<SeqId>, toks: Seq<TokenId>, m: Map<SeqId, RequestId>, n: int) -> Seq<
    (RequestId, TokenId),
>
    decreases n,
{
    if n <= 0 {
        Seq::empty()
    } else if m.contains_key(ids[n - 1]) {
        gen_pairs(ids, toks, m, n - 1).push((m[ids[n - 1]], toks[n - 1]))
    } else {
        gen_pairs(ids, toks, m, n - 1)
    }
}

/// The tokens a step generated for each request, in order: none unless the
/// batch ran and its output was recorded.
pub open spec fn generated_by(v: SchedView, lim: Limits, res: Result<ExecutionOutput, ExecutionError>) -> Seq<
    (RequestId, TokenId),
> {
    match res {
        Ok(o) => if batch_ids(v, lim).len() > 0 && output_recordable(o, lim) {
            gen_pairs(
                o.seq_ids@,
                o.next_tokens@,
                id_map(batch_seqs(v, lim)),
                if o.seq_ids@.len() < o.next_tokens@.len() {
                    o.seq_ids@.len() as int
                } else {
                    o.next_tokens@.len() as int
                },
            )
        } else {
            Seq::empty()
        },
        Err(_) => Seq::empty(),
    }
}

/// The tokens of `gen` for request `rid`, in order.
pub open spec fn tokens_for(gen: Seq<(RequestId, TokenId)>, rid: RequestId) -> Seq<TokenId>
    decreases gen.len(),
{
    if gen.len() == 0 {
        Seq::empty()
    } else if gen.last().0 == rid {
        tokens_for(gen.drop_last(), rid).push(gen.last().1)
    } else {
        tokens_for(gen.drop_last(), rid)
    }
}

/// The text of the chunks of `cs` for request `rid`, concatenated in order.
pub open spec fn chunk_text(cs: Seq<StepChunk>, rid: RequestId) -> Seq<char>
    decreases cs.len(),
{
    if cs.len() == 0 {
        Seq::empty()
    } else if cs.last().0 == rid {
        chunk_text(cs.drop_last(), rid) + cs.last().1@
    } else {
        chunk_text(cs.drop_last(), rid)
    }
}

/// The text that chunks add up to over a concatenation.
pub proof fn lemma_chunk_text_append(a: Seq<StepChunk>, b: Seq<StepChunk>, rid: RequestId)
    ensures
        chunk_text(a + b, rid) == chunk_text(a, rid) + chunk_text(b, rid),
    decreases b.len(),
{
    if b.len() == 0 {
        assert(a + b =~= a);
        assert(chunk_text(a, rid) + Seq::<char>::empty() =~= chunk_text(a, rid));
    } else {
        assert((a + b).drop_last() =~= a + b.drop_last());
        lemma_chunk_text_append(a, b.drop_last(), rid);
        if b.last().0 == rid {
            assert(chunk_text(a, rid) + chunk_text(b.drop_last(), rid) + b.last().1@ =~= chunk_text(a, rid) + (
            chunk_text(b.drop_last(), rid) + b.last().1@));
        }
    }
}

/// Chunks none of which is for `rid` add no text for it.
pub proof fn lemma_chunk_text_none(cs: Seq<StepChunk>, rid: RequestId)
    requires
        forall|k: int| 0 <= k < cs.len() ==> (#[trigger] cs[k]).0 != rid,
    ensures
        chunk_text(cs, rid) == Seq::<char>::empty(),
    decreases cs.len(),
{
    if cs.len() > 0 {
        assert forall|k: int| 0 <= k < cs.drop_last().len() implies (#[trigger] cs.drop_last()[k]).0 != rid by {
            assert(cs.drop_last()[k] == cs[k]);
        }
        lemma_chunk_text_none(cs.drop_last(), rid);
    }
}

/// Each decoder still live after a step was live before it and received the
/// tokens generated for its request.
pub open spec fn decoders_fed(e0: InferenceEngine, e1: InferenceEngine, gen: Seq<(RequestId, TokenId)>) -> bool {
    &&& e1.live_decoders().subset_of(e0.live_decoders())
    &&& forall|rid: RequestId| #[trigger]
        e1.live_decoders().contains(rid) ==> e1.decoder_of(rid).pushed() == e0.decoder_of(rid).pushed()
            + tokens_for(gen, rid)
}

/// What a step did to each decoder that is still live after it: it received
/// the tokens generated for its request (see [`decoders_fed`]), and the
/// chunks returned for that request are the text it emitted.
pub open spec fn decoders_advanced(
    e0: InferenceEngine,
    e1: InferenceEngine,
    gen: Seq<(RequestId, TokenId)>,
    chunks: Seq<StepChunk>,
) -> bool {
    &&& decoders_fed(e0, e1, gen)
    &&& forall|rid: RequestId| #[trigger]
        e1.live_decoders().contains(rid) ==> e1.decoder_of(rid).emitted() == e0.decoder_of(rid).emitted()
            + chunk_text(chunks, rid)
}

/// The chunks a step returned.
pub open spec fn step_chunks(r: Result<StepEvents, EngineError>) -> Seq<StepChunk> {
    match r {
        Ok(ev) => ev.chunks@,
        Err(_) => Seq::empty(),
    }
}

/// The reason given to a request whose decoder failed starts so.
pub open spec fn decode_failed_prefix() -> Seq<char> {
    "tokenizer decode failed: "@
}

/// Every entry of `failed` is a request whose decoder failed on a token
/// generated for it, with a reason that says so.
pub open spec fn decode_failures(failed: Seq<(RequestId, Seq<char>)>, gen: Seq<(RequestId, TokenId)>) -> bool {
    forall|k: int|
        0 <= k < failed.len() ==> (exists|j: int| 0 <= j < gen.len() && gen[j].0 == (#[trigger] failed[k]).0)
            && failed[k].1.len() >= decode_failed_prefix().len() && failed[k].1.take(
            decode_failed_prefix().len() as int,
        ) == decode_failed_prefix()
}

/// Some request is pending or active.
pub open spec fn has_work(v: SchedView) -> bool {
    v.pending.len() > 0 || v.prefill.len() > 0 || v.decode.len() > 0
}

/// The request ids of reports, in order.
pub open spec fn report_rids(cs: Seq<CompletedRequest>) -> Seq<RequestId> {
    cs.map_values(|c: CompletedRequest| c.request_id)
}

/// `cs` reports, in order, the requests `rs`.
pub open spec fn reports_all(cs: Seq<CompletedRequest>, rs: Seq<RequestView>) -> bool {
    &&& cs.len() == rs.len()
    &&& forall|i: int| 0 <= i < cs.len() ==> reports(#[trigger] cs[i], rs[i])
}

/// A report's status and text against the tokenizer's rules (`decodes` and
/// `text` for the request's output): a finished request has an error exactly
/// when it did not succeed, and a completed request whose output is sure to
/// decode succeeds with the decoded text.
pub open spec fn reports_text(c: CompletedRequest, r: RequestView, decodes: bool, text: Seq<char>) -> bool {
    &&& (r.state is Completed || r.state is Failed) ==> (c.error is Some <==> !c.success)
    &&& (r.state == StateView::Completed && decodes ==> c.success && c.output_text@ == text)
}

/// The reports that succeeded.
pub open spec fn count_success(cs: Seq<CompletedRequest>) -> nat
    decreases cs.len(),
{
    if cs.len() == 0 {
        0
    } else {
        count_success(cs.drop_last()) + if cs.last().success {
            1nat
        } else {
            0nat
        }
    }
}

/// The reports that did not succeed.
pub open spec fn count_failed(cs: Seq<CompletedRequest>) -> nat
    decreases cs.len(),
{
    if cs.len() == 0 {
        0
    } else {
        count_failed(cs.drop_last()) + if cs.last().success {
            0nat
        } else {
            1nat
        }
    }
}

/// The output tokens of the reports, counted.
pub open spec fn tokens_total(cs: Seq<CompletedRequest>) -> nat
    decreases cs.len(),
{
    if cs.len() == 0 {
        0
    } else {
        tokens_total(cs.drop_last()) + cs.last().output_tokens@.len()
    }
}

/// A counter `a` raised by `k`, saturating at `u64::MAX`.
pub open spec fn sat_count(a: u64, k: nat) -> u64 {
    if a + k > u64::MAX {
        u64::MAX
    } else {
        (a + k) as u64
    }
}

/// The ids of requests.
pub open spec fn request_ids(rs: Seq<RequestView>) -> Set<RequestId> {
    Set::new(|id: RequestId| exists|k: int| 0 <= k < rs.len() && (#[trigger] rs[k]).id == id)
}

/// A decoding's result as characters.
pub open spec fn decoded_view(d: Result<String, String>) -> Result<Seq<char>, Seq<char>> {
    match d {
        Ok(t) => Ok(t@),
        Err(e) => Err(e@),
    }
}

/// `c` is the report of the terminal request `r` whose output decoded to
/// `decoded`: it succeeded exactly when `r` completed and the output
/// decoded; its text is the decoding (empty when decoding failed); its
/// error is the failure's reason, or the decoding error after
/// [`decode_failed_prefix`], and nothing on success.
pub open spec fn report_fields(c: CompletedRequest, r: RequestView, decoded: Result<Seq<char>, Seq<char>>) -> bool {
    &&& c.request_id == r.id
    &&& c.output_tokens@ == r.output
    &&& c.success == (r.state == StateView::Completed && decoded is Ok)
    &&& c.output_text@ == (match decoded {
        Ok(t) => t,
        Err(_) => Seq::<char>::empty(),
    })
    &&& match r.state {
        StateView::Failed(m) => c.error matches Some(e) && e@ == m,
        _ => match decoded {
            Ok(_) => c.error is None,
            Err(x) => c.error matches Some(e) && e@ == decode_failed_prefix() + x,
        },
    }
}

/// `c` is the report of the terminal request `r` for some result of decoding
/// its output (see [`report_fields`]), which is the decoding `decoded` when
/// the output `decodes`.
pub open spec fn reports_decoding(c: CompletedRequest, r: RequestView, decodes: bool, decoded: Seq<char>) -> bool {
    exists|d: Result<Seq<char>, Seq<char>>|
        #[trigger] report_fields(c, r, d) && (decodes ==> d == Ok::<Seq<char>, Seq<char>>(decoded))
}

/// The report of a terminal request, given the decoding of its prompt and
/// the result of decoding its output (see [`report_fields`]).
pub fn completed_report(req: &Request, input_text: Option<String>, decoded: Result<String, String>) -> (c:
    CompletedRequest)
    ensures
        report_fields(c, req@, decoded_view(decoded)),
        c.input_text == input_text,
{
    let (output_text, decode_error) = match decoded {
        Ok(text) => (text, None),
        Err(e) => (String::new(), Some(e)),
    };
    let is_completed = match req.state {
        RequestState::Completed => true,
        _ => false,
    };
    let success = is_completed && decode_error.is_none();
    let error: Option<String> = match &req.state {
        RequestState::Failed(msg) => Some(msg.clone()),
        _ => match decode_error {
            Some(msg) => Some(concat_text("tokenizer decode failed: ", msg.as_str())),
            None => None,
        },
    };
    let output_tokens = req.output_tokens.clone();
    proof {
        assert(output_tokens@ =~= req.output_tokens@);
    }
    CompletedRequest { request_id: req.id, input_text, output_text, output_tokens, success, error }
}

impl InferenceEngine {
    /// Drains the requests that reached a terminal state: decodes their
    /// prompt and output, drops their decoders (flushing the decoder of a
    /// successful request into a last chunk), and counts them.
    fn collect_completed_requests(&mut self) -> (r: (Vec<CompletedRequest>, Vec<StepChunk>))
        requires
            old(self).wf(),
        ensures
            final(self).wf(),
            final(self).sched() == (SchedView { completed: Seq::empty(), ..old(self).sched() }),
            final(self).sched_limits() == old(self).sched_limits(),
            final(self).spec_config() == old(self).spec_config(),
            final(self).next_id() == old(self).next_id(),
            final(self).submitted() == old(self).submitted(),
            final(self).step_limit() == old(self).step_limit(),
            final(self).is_running() == old(self).is_running(),
            final(self).eos() == old(self).eos(),
            r.0@.len() == old(self).sched().completed.len(),
            forall|i: int| 0 <= i < r.0@.len() ==> reports(#[trigger] r.0@[i], old(self).sched().completed[i]),
            forall|i: int|
                0 <= i < r.0@.len() ==> reports_decoding(
                    #[trigger] r.0@[i],
                    old(self).sched().completed[i],
                    old(self).tok_decodes(old(self).sched().completed[i].output),
                    old(self).tok_decoded(old(self).sched().completed[i].output),
                ),
            forall|i: int|
                0 <= i < r.0@.len() ==> reports_text(
                    #[trigger] r.0@[i],
                    old(self).sched().completed[i],
                    old(self).tok_decodes(old(self).sched().completed[i].output),
                    old(self).tok_decoded(old(self).sched().completed[i].output),
                ),
            same_tokenizer(*old(self), *final(self)),
            final(self).steps_of_last_run() == old(self).steps_of_last_run(),
            final(self).completed_count() == sat_count(old(self).completed_count(), count_success(r.0@)),
            final(self).failed_count() == sat_count(old(self).failed_count(), count_failed(r.0@)),
            final(self).tokens_generated() == sat_count(old(self).tokens_generated(), tokens_total(r.0@)),
            final(self).live_decoders() == old(self).live_decoders().difference(
                request_ids(old(self).sched().completed),
            ),
            forall|id: RequestId| #[trigger]
                final(self).live_decoders().contains(id) ==> final(self).decoder_of(id) == old(self).decoder_of(id),
            forall|k: int|
                0 <= k < r.1@.len() ==> (#[trigger] r.1@[k]).1@.len() > 0 && request_ids(
                    old(self).sched().completed,
                ).contains(r.1@[k].0),
    {
        let completed_requests = self.scheduler.get_completed();
        let ghost reqs = old(self).sched().completed;
        proof {
            assert(request_ids(reqs.take(0)) =~= Set::<RequestId>::empty());
            assert(old(self).live_decoders().difference(Set::<RequestId>::empty()) =~= old(self).live_decoders());
        }
        let mut results: Vec<CompletedRequest> = Vec::new();
        let mut tail_chunks: Vec<StepChunk> = Vec::new();
        let mut i: usize = 0;
        while i < completed_requests.len()
            invariant
                self.wf(),
                self.sched() == (SchedView { completed: Seq::empty(), ..old(self).sched() }),
                self.sched_limits() == old(self).sched_limits(),
                self.spec_config() == old(self).spec_config(),
                self.next_id() == old(self).next_id(),
                self.submitted() == old(self).submitted(),
                self.step_limit() == old(self).step_limit(),
                self.is_running() == old(self).is_running(),
                self.eos() == old(self).eos(),
                reqs == old(self).sched().completed,
                crate::types::request_views(completed_requests@) == reqs,
                i <= completed_requests@.len(),
                results@.len() == i,
                forall|k: int| 0 <= k < i ==> reports(#[trigger] results@[k], reqs[k]),
                forall|k: int|
                    0 <= k < i ==> reports_decoding(
                        #[trigger] results@[k],
                        reqs[k],
                        old(self).tok_decodes(reqs[k].output),
                        old(self).tok_decoded(reqs[k].output),
                    ),
                forall|k: int|
                    0 <= k < i ==> reports_text(
                        #[trigger] results@[k],
                        reqs[k],
                        old(self).tok_decodes(reqs[k].output),
                        old(self).tok_decoded(reqs[k].output),
                    ),
                self.tokenizer == old(self).tokenizer,
                self.last_run_steps == old(self).last_run_steps,
                self.completed_requests_count == sat_count(old(self).completed_requests_count, count_success(results@)),
                self.failed_requests_count == sat_count(old(self).failed_requests_count, count_failed(results@)),
                self.total_tokens_generated == sat_count(old(self).total_tokens_generated, tokens_total(results@)),
                self.decoders@.dom() == old(self).decoders@.dom().difference(request_ids(reqs.take(i as int))),
                forall|id: RequestId| #[trigger]
                    self.decoders@.dom().contains(id) ==> self.decoders@[id] == old(self).decoders@[id],
                forall|k: int|
                    0 <= k < tail_chunks@.len() ==> (#[trigger] tail_chunks@[k]).1@.len() > 0 && request_ids(
                        reqs,
                    ).contains(tail_chunks@[k].0),
            decreases completed_requests@.len() - i,
        {
            let req = &completed_requests[i];
            let ghost results_before = results@;
            proof {
                assert(req@ == reqs[i as int]);
                let a = reqs.take(i as int);
                let b = reqs.take(i + 1);
                assert forall|id: RequestId| request_ids(b).contains(id) <==> request_ids(a).insert(req.id).contains(
                    id,
                ) by {
                    if request_ids(b).contains(id) {
                        let k = choose|k: int| 0 <= k < b.len() && (#[trigger] b[k]).id == id;
                        if k < i {
                            assert(a[k] == b[k]);
                        }
                    }
                    if request_ids(a).contains(id) {
                        let k = choose|k: int| 0 <= k < a.len() && (#[trigger] a[k]).id == id;
                        assert(b[k] == a[k]);
                    }
                    if id == req.id {
                        assert(b[i as int] == reqs[i as int]);
                    }
                }
                assert(request_ids(b) =~= request_ids(a).insert(req.id));
                assert(reqs[i as int].id == req.id);
                assert(request_ids(reqs).contains(req.id));
            }
            let decoder = self.decoders.remove(&req.id);
            proof {
                assert(self.decoders@.dom() =~= old(self).decoders@.dom().difference(request_ids(reqs.take(i + 1))));
            }
            let input_text = match self.tokenizer.try_decode(req.input_tokens.as_slice()) {
                Ok(text) => Some(text),
                Err(_) => None,
            };
            let decoded = self.tokenizer.try_decode(req.output_tokens.as_slice());
            let ghost dv = decoded_view(decoded);
            let done = completed_report(req, input_text, decoded);
            let success = done.success;
            if success {
                match decoder {
                    Some(mut d) => match d.finish() {
                        Ok(Some(tail)) => {
                            if tail.as_str().unicode_len() > 0 {
                                tail_chunks.push((req.id, tail));
                            }
                        },
                        _ => {},
                    },
                    None => {},
                }
            }
            self.total_tokens_generated = self.total_tokens_generated.saturating_add(req.output_tokens.len() as u64);
            if success {
                self.completed_requests_count = self.completed_requests_count.saturating_add(1);
            } else {
                self.failed_requests_count = self.failed_requests_count.saturating_add(1);
            }
            proof {
                assert(report_fields(done, reqs[i as int], dv));
                assert(reports(done, reqs[i as int]));
                assert(reports_text(
                    done,
                    reqs[i as int],
                    old(self).tok_decodes(reqs[i as int].output),
                    old(self).tok_decoded(reqs[i as int].output),
                ));
            }
            results.push(done);
            proof {
                assert(results@.drop_last() =~= results_before);
                assert(req.output_tokens@ == reqs[i as int].output);
                assert(old(self).tok_decodes(reqs[i as int].output) ==> dv == Ok::<Seq<char>, Seq<char>>(
                    old(self).tok_decoded(reqs[i as int].output),
                ));
                assert(reports_decoding(
                    done,
                    reqs[i as int],
                    old(self).tok_decodes(reqs[i as int].output),
                    old(self).tok_decoded(reqs[i as int].output),
                ));
            }
            i = i + 1;
        }
        proof {
            assert(reqs.take(i as int) =~= reqs);
        }
        (results, tail_chunks)
    }

    /// Applies the executor's answer to a batch of sequences `batch_ids`
    /// (see [`executed_view`]): an output whose length the scheduler can
    /// record is recorded and returned; an error, or an output too long to
    /// record, fails every sequence of the batch with the error's message
    /// and is returned.
    pub fn record_execution(
        &mut self,
        batch_ids: Vec<SeqId>,
        result: Result<ExecutionOutput, ExecutionError>,
    ) -> (r: Result<ExecutionOutput, EngineError>)
        requires
            old(self).wf(),
        ensures
            final(self).wf(),
            final(self).sched() == executed_view(
                old(self).sched(),
                old(self).sched_limits(),
                batch_ids@,
                result,
                old(self).eos(),
            ),
            final(self).sched_limits() == old(self).sched_limits(),
            final(self).spec_config() == old(self).spec_config(),
            final(self).next_id() == old(self).next_id(),
            final(self).submitted() == old(self).submitted(),
            final(self).step_limit() == old(self).step_limit(),
            final(self).is_running() == old(self).is_running(),
            final(self).eos() == old(self).eos(),
            final(self).decoder_map() == old(self).decoder_map(),
            same_tokenizer(*old(self), *final(self)),
            final(self).steps_of_last_run() == old(self).steps_of_last_run(),
            final(self).completed_count() == old(self).completed_count(),
            final(self).failed_count() == old(self).failed_count(),
            final(self).tokens_generated() == old(self).tokens_generated(),
            r is Ok <==> (result matches Ok(o) && output_recordable(o, old(self).sched_limits())),
            match r {
                Ok(o) => result == Ok::<ExecutionOutput, ExecutionError>(o) && output_recordable(
                    o,
                    old(self).sched_limits(),
                ),
                Err(e) => e == EngineError::Execution(execution_error(result, old(self).sched_limits())),
            },
    {
        let checked = match result {
            Ok(exec_output) => if self.scheduler.accepts_output_len(exec_output.seq_ids.len()) {
                Ok(exec_output)
            } else {
                Err(ExecutionError::InvalidOutput)
            },
            Err(e) => Err(e),
        };
        match checked {
            Ok(exec_output) => {
                self.scheduler.update_sequences(&exec_output, self.eos_token_id);
                Ok(exec_output)
            },
            Err(exec_error) => {
                let engine_error = EngineError::Execution(exec_error);
                let reason = engine_error.message();
                self.scheduler.fail_sequences(batch_ids, reason.as_str());
                Err(engine_error)
            },
        }
    }

    /// One step with its events: the batch is scheduled and run; on success
    /// the tokens are recorded and streamed through each request's decoder
    /// (a decoder that fails fails its request); on failure every scheduled
    /// sequence fails with the error, and the error is returned when no
    /// request reached a terminal state. The requests that reached one are
    /// drained (see [`stepped_view`] and [`step_reports`]: the executor's
    /// answer and the decoders' failures are not this library's to choose).
    #[verifier::spinoff_prover]
    #[verifier::rlimit(40)]
    pub fn step_events(&mut self) -> (r: Result<StepEvents, EngineError>)
        requires
            old(self).wf(),
        ensures
            final(self).wf(),
            final(self).sched_limits() == old(self).sched_limits(),
            final(self).spec_config() == old(self).spec_config(),
            final(self).next_id() == old(self).next_id(),
            final(self).submitted() == old(self).submitted(),
            final(self).step_limit() == old(self).step_limit(),
            final(self).is_running() == old(self).is_running(),
            final(self).eos() == old(self).eos(),
            final(self).sched().completed.len() == 0,
            exists|res: Result<ExecutionOutput, ExecutionError>, failed: Seq<(RequestId, Seq<char>)>|
                #[trigger] step_reports(
                    r,
                    final(self).sched(),
                    stepped_view(old(self).sched(), old(self).sched_limits(), old(self).eos(), res, failed),
                ) && decoders_advanced(
                    *old(self),
                    *final(self),
                    generated_by(old(self).sched(), old(self).sched_limits(), res),
                    step_chunks(r),
                ) && decode_failures(failed, generated_by(old(self).sched(), old(self).sched_limits(), res)),
            batch_ids(old(self).sched(), old(self).sched_limits()).len() == 0 ==> r is Ok,
            forall|k: int| 0 <= k < step_chunks(r).len() ==> (#[trigger] step_chunks(r)[k]).1@.len() > 0,
            same_tokenizer(*old(self), *final(self)),
            final(self).steps_of_last_run() == old(self).steps_of_last_run(),
    {
        let ghost v = self.sched();
        let ghost lim = self.sched_limits();
        let output = self.scheduler.schedule();
        let ghost s = self.sched();
        let ghost ids = batch_ids(v, lim);
        let mut generated: Vec<(RequestId, TokenId)> = Vec::new();
        let ghost mut res: Result<ExecutionOutput, ExecutionError> = Err(ExecutionError::InvalidOutput);
        if !output.is_empty() {
            let mut request_id_by_seq: HashMap<SeqId, RequestId> = HashMap::new();
            let mut batch_seq_ids: Vec<SeqId> = Vec::new();
            let ghost pv = arc_views(output.prefill_sequences@);
            let ghost dv = arc_views(output.decode_sequences@);
            let mut i: usize = 0;
            while i < output.prefill_sequences.len()
                invariant
                    i <= output.prefill_sequences@.len(),
                    pv == arc_views(output.prefill_sequences@),
                    batch_seq_ids@ == seq_ids(pv.take(i as int)),
                    request_id_by_seq@ == id_map(pv.take(i as int)),
                decreases output.prefill_sequences@.len() - i,
            {
                let seq = &output.prefill_sequences[i];
                request_id_by_seq.insert(seq.seq_id, seq.request.id);
                batch_seq_ids.push(seq.seq_id);
                proof {
                    assert(pv.take(i + 1) =~= pv.take(i as int).push(pv[i as int]));
                    assert(pv.take(i + 1).drop_last() =~= pv.take(i as int));
                }
                i = i + 1;
            }
            proof {
                assert(pv.take(i as int) =~= pv);
                assert(pv + dv.take(0) =~= pv);
            }
            let mut j: usize = 0;
            while j < output.decode_sequences.len()
                invariant
                    j <= output.decode_sequences@.len(),
                    dv == arc_views(output.decode_sequences@),
                    batch_seq_ids@ == seq_ids(pv) + seq_ids(dv.take(j as int)),
                    request_id_by_seq@ == id_map(pv + dv.take(j as int)),
                decreases output.decode_sequences@.len() - j,
            {
                let seq = &output.decode_sequences[j];
                request_id_by_seq.insert(seq.seq_id, seq.request.id);
                batch_seq_ids.push(seq.seq_id);
                proof {
                    assert((pv + dv.take(j + 1)).drop_last() =~= pv + dv.take(j as int));
                    assert((pv + dv.take(j + 1)).last() == dv[j as int]);
                    assert(dv.take(j + 1) =~= dv.take(j as int).push(dv[j as int]));
                    assert(seq_ids(pv) + seq_ids(dv.take(j + 1)) =~= (seq_ids(pv) + seq_ids(
                        dv.take(j as int),
                    )).push(dv[j as int].seq_id));
                }
                j = j + 1;
            }
            proof {
                assert(dv.take(j as int) =~= dv);
                assert(batch_seq_ids@ == ids);
                assert(pv + dv == batch_seqs(v, lim));
            }
            let batch = build_execution_batch(&output);
            let raw = self.execute_with_retry(&batch);
            proof {
                res = raw;
            }
            match self.record_execution(batch_seq_ids, raw) {
                Ok(exec_output) => {
                    let n = if exec_output.seq_ids.len() < exec_output.next_tokens.len() {
                        exec_output.seq_ids.len()
                    } else {
                        exec_output.next_tokens.len()
                    };
                    let mut k: usize = 0;
                    while k < n
                        invariant
                            k <= n,
                            n <= exec_output.seq_ids@.len(),
                            n <= exec_output.next_tokens@.len(),
                            request_id_by_seq@ == id_map(batch_seqs(v, lim)),
                            generated@ == gen_pairs(
                                exec_output.seq_ids@,
                                exec_output.next_tokens@,
                                id_map(batch_seqs(v, lim)),
                                k as int,
                            ),
                        decreases n - k,
                    {
                        match request_id_by_seq.get(&exec_output.seq_ids[k]) {
                            Some(request_id) => {
                                generated.push((*request_id, exec_output.next_tokens[k]));
                            },
                            None => {},
                        }
                        k = k + 1;
                    }
                    proof {
                        assert(generated@ == generated_by(v, lim, res));
                    }
                },
                Err(engine_error) => {
                    let ghost before_drain = self.sched();
                    let ghost e_mid = *self;
                    let (completed, tail) = self.collect_completed_requests();
                    proof {
                        assert(before_drain == stepped_view(v, lim, self.eos(), res, Seq::empty()));
                        assert(generated_by(v, lim, res) == Seq::<(RequestId, TokenId)>::empty());
                        assert forall|rid: RequestId| #[trigger] self.live_decoders().contains(rid) implies chunk_text(
                            tail@,
                            rid,
                        ) == Seq::<char>::empty() by {
                            assert forall|k: int| 0 <= k < tail@.len() implies (#[trigger] tail@[k]).0 != rid by {
                                assert(request_ids(before_drain.completed).contains(tail@[k].0));
                            }
                            lemma_chunk_text_none(tail@, rid);
                        }
                        assert(decoders_advanced(
                            *old(self),
                            *self,
                            Seq::<(RequestId, TokenId)>::empty(),
                            tail@,
                        ));
                        assert(decoders_advanced(*old(self), *self, Seq::<(RequestId, TokenId)>::empty(), Seq::empty()));
                    }
                    if completed.len() == 0 {
                        let r = Err::<StepEvents, EngineError>(engine_error);
                        proof {
                            assert(step_reports(r, self.sched(), stepped_view(v, lim, self.eos(), res, Seq::empty())));
                            assert(step_reports(
                                r,
                                self.sched(),
                                stepped_view(old(self).sched(), old(self).sched_limits(), old(self).eos(), res, Seq::empty()),
                            ));
                        }
                        return r;
                    } else {
                        let r = Ok::<StepEvents, EngineError>(StepEvents { completed, chunks: tail });
                        proof {
                            assert(step_reports(r, self.sched(), stepped_view(v, lim, self.eos(), res, Seq::empty())));
                            assert(step_reports(
                                r,
                                self.sched(),
                                stepped_view(old(self).sched(), old(self).sched_limits(), old(self).eos(), res, Seq::empty()),
                            ));
                        }
                        return r;
                    }
                },
            }
        }
        let ghost after = self.sched();
        let ghost mut failed: Seq<(RequestId, Seq<char>)> = Seq::empty();
        let ghost d0 = self.decoders@;
        let ghost gen = generated@;
        proof {
            assert(after == stepped_view(v, lim, self.eos(), res, Seq::empty()));
            assert(gen == generated_by(v, lim, res));
            assert(d0 == old(self).decoders@);
            assert forall|rid: RequestId| #[trigger] d0.contains_key(rid) implies self.decoders@[rid].pushed()
                == d0[rid].pushed() + tokens_for(gen.take(0), rid) && self.decoders@[rid].emitted()
                == d0[rid].emitted() + chunk_text(Seq::<StepChunk>::empty(), rid) by {
                assert(gen.take(0) =~= Seq::<(RequestId, TokenId)>::empty());
                assert(d0[rid].pushed() + Seq::<TokenId>::empty() =~= d0[rid].pushed());
                assert(d0[rid].emitted() + Seq::<char>::empty() =~= d0[rid].emitted());
            }
        }
        let mut chunks: Vec<StepChunk> = Vec::new();
        let mut g: usize = 0;
        while g < generated.len()
            invariant
                self.wf(),
                g <= generated@.len(),
                self.sched_limits() == old(self).sched_limits(),
                self.spec_config() == old(self).spec_config(),
                self.next_id() == old(self).next_id(),
                self.submitted() == old(self).submitted(),
                self.step_limit() == old(self).step_limit(),
                self.is_running() == old(self).is_running(),
                self.eos() == old(self).eos(),
                self.sched() == fail_requests_view(after, failed),
                after == stepped_view(v, lim, self.eos(), res, Seq::empty()),
                generated@ == gen,
                same_tokenizer(*old(self), *self),
                self.steps_of_last_run() == old(self).steps_of_last_run(),
                self.decoders@.dom() == d0.dom(),
                forall|rid: RequestId| #[trigger]
                    d0.contains_key(rid) ==> self.decoders@[rid].pushed() == d0[rid].pushed() + tokens_for(
                        gen.take(g as int),
                        rid,
                    ) && self.decoders@[rid].emitted() == d0[rid].emitted() + chunk_text(chunks@, rid),
                forall|k: int| 0 <= k < chunks@.len() ==> (#[trigger] chunks@[k]).1@.len() > 0,
                decode_failures(failed, gen),
            decreases generated@.len() - g,
        {
            let (request_id, token) = generated[g];
            let ghost chunks_before = chunks@;
            let ghost map_before = self.decoders@;
            let ghost e_start = *self;
            proof {
                assert(gen.take(g + 1).drop_last() =~= gen.take(g as int));
                assert(gen.take(g + 1).last() == (request_id, token));
            }
            match self.decoders.remove(&request_id) {
                Some(mut decoder) => {
                    let ghost dec_before = decoder;
                    match decoder.push(token) {
                        Ok(Some(text)) => {
                            if text.as_str().unicode_len() > 0 {
                                chunks.push((request_id, text));
                                proof {
                                    assert(chunks@.drop_last() =~= chunks_before);
                                }
                            } else {
                                proof {
                                    assert(text@ =~= Seq::<char>::empty());
                                    assert(dec_before.emitted() + text@ =~= dec_before.emitted());
                                }
                            }
                        },
                        Ok(None) => {},
                        Err(msg) => {
                            let reason = concat_text("tokenizer decode failed: ", msg.as_str());
                            let ghost w = self.sched();
                            self.scheduler.fail_by_request_id(request_id, reason.as_str());
                            proof {
                                reveal_strlit("tokenizer decode failed: ");
                                assert(reason@.take(decode_failed_prefix().len() as int) =~= decode_failed_prefix());
                                assert(gen[g as int].0 == request_id);
                                let f2 = failed.push((request_id, reason@));
                                assert(f2.drop_last() =~= failed);
                                assert(f2[failed.len() as int] == (request_id, reason@));
                                failed = f2;
                            }
                        },
                    }
                    self.decoders.insert(request_id, decoder);
                    proof {
                        assert(self.decoders@.dom() =~= d0.dom());
                        assert forall|rid: RequestId| #[trigger] d0.contains_key(rid) implies self.decoders@[rid].pushed()
                            == d0[rid].pushed() + tokens_for(gen.take(g + 1), rid) && self.decoders@[rid].emitted()
                            == d0[rid].emitted() + chunk_text(chunks@, rid) by {
                            if rid == request_id {
                                assert(d0[rid].pushed() + tokens_for(gen.take(g as int), rid).push(token) =~= (
                                d0[rid].pushed() + tokens_for(gen.take(g as int), rid)).push(token));
                                assert(d0[rid].emitted() + chunk_text(chunks@, rid) =~= self.decoders@[rid].emitted());
                            } else {
                                assert(self.decoders@[rid] == map_before[rid]);
                            }
                        }
                    }
                },
                None => {
                    proof {
                        assert forall|rid: RequestId| #[trigger] d0.contains_key(rid) implies self.decoders@[rid].pushed()
                            == d0[rid].pushed() + tokens_for(gen.take(g + 1), rid) by {
                            assert(rid != request_id);
                        }
                    }
                },
            }
            proof {
                InferenceEngine::lemma_same_tokenizer_kept(*old(self), e_start, *self);
            }
            g = g + 1;
        }
        let ghost before_drain = self.sched();
        let ghost push_chunks = chunks@;
        proof {
            assert(gen.take(g as int) =~= gen);
        }
        let (completed, mut tail) = self.collect_completed_requests();
        let ghost tail_v = tail@;
        chunks.append(&mut tail);
        let events = StepEvents { completed, chunks };
        proof {
            assert(events.chunks@ == push_chunks + tail_v);
            assert forall|rid: RequestId| #[trigger] self.live_decoders().contains(rid) implies chunk_text(
                events.chunks@,
                rid,
            ) == chunk_text(push_chunks, rid) by {
                assert forall|k: int| 0 <= k < tail_v.len() implies (#[trigger] tail_v[k]).0 != rid by {
                    assert(request_ids(before_drain.completed).contains(tail_v[k].0));
                }
                lemma_chunk_text_none(tail_v, rid);
                lemma_chunk_text_append(push_chunks, tail_v, rid);
                assert(chunk_text(push_chunks, rid) + Seq::<char>::empty() =~= chunk_text(push_chunks, rid));
            }
            assert(decoders_advanced(*old(self), *self, gen, events.chunks@));
            assert forall|k: int| 0 <= k < events.chunks@.len() implies (#[trigger] events.chunks@[k]).1@.len() > 0 by {
                if k >= push_chunks.len() {
                    assert(events.chunks@[k] == tail_v[k - push_chunks.len()]);
                }
            }
            assert(before_drain == stepped_view(v, lim, self.eos(), res, failed));
            assert(step_reports(Ok::<StepEvents, EngineError>(events), self.sched(), stepped_view(v, lim, self.eos(), res, failed)));
            assert(step_reports(
                Ok::<StepEvents, EngineError>(events),
                self.sched(),
                stepped_view(old(self).sched(), old(self).sched_limits(), old(self).eos(), res, failed),
            ));
        }
        Ok(events)
    }

    /// One step; returns the requests that reached a terminal state (see
    /// [`Self::step_events`]).
    pub fn step(&mut self) -> (r: Result<Vec<CompletedRequest>, EngineError>)
        requires
            old(self).wf(),
        ensures
            final(self).wf(),
            final(self).sched_limits() == old(self).sched_limits(),
            final(self).spec_config() == old(self).spec_config(),
            final(self).next_id() == old(self).next_id(),
            final(self).submitted() == old(self).submitted(),
            final(self).step_limit() == old(self).step_limit(),
            final(self).is_running() == old(self).is_running(),
            final(self).eos() == old(self).eos(),
            final(self).sched().completed.len() == 0,
            exists|res: Result<ExecutionOutput, ExecutionError>, failed: Seq<(RequestId, Seq<char>)>|
                #[trigger] step_list_reports(
                    r,
                    final(self).sched(),
                    stepped_view(old(self).sched(), old(self).sched_limits(), old(self).eos(), res, failed),
                ) && decoders_fed(
                    *old(self),
                    *final(self),
                    generated_by(old(self).sched(), old(self).sched_limits(), res),
                ) && decode_failures(failed, generated_by(old(self).sched(), old(self).sched_limits(), res)),
            batch_ids(old(self).sched(), old(self).sched_limits()).len() == 0 ==> r is Ok,
            same_tokenizer(*old(self), *final(self)),
            final(self).steps_of_last_run() == old(self).steps_of_last_run(),
    {
        let events = self.step_events();
        let ghost pick = choose|res: Result<ExecutionOutput, ExecutionError>, failed: Seq<(RequestId, Seq<char>)>|
            step_reports(
                events,
                self.sched(),
                stepped_view(old(self).sched(), old(self).sched_limits(), old(self).eos(), res, failed),
            ) && decoders_advanced(
                *old(self),
                *self,
                generated_by(old(self).sched(), old(self).sched_limits(), res),
                step_chunks(events),
            ) && decode_failures(failed, generated_by(old(self).sched(), old(self).sched_limits(), res));
        let r = match events {
            Ok(ev) => Ok(ev.completed),
            Err(e) => Err(e),
        };
        proof {
            assert(step_list_reports(
                r,
                self.sched(),
                stepped_view(old(self).sched(), old(self).sched_limits(), old(self).eos(), pick.0, pick.1),
            ));
            assert(decoders_advanced(
                *old(self),
                *self,
                generated_by(old(self).sched(), old(self).sched_limits(), pick.0),
                step_chunks(events),
            ));
        }
        r
    }

    /// Steps until no work is left, `stop` was called, the step limit is
    /// reached, or `STALL_LIMIT` steps in a row neither finished a request
    /// nor had an active sequence; then the pending requests, which can
    /// never start, fail. Returns every request that reached a terminal
    /// state, those already drained-ready first.
    pub fn run(&mut self) -> (r: Vec<CompletedRequest>)
        requires
            old(self).wf(),
        ensures
            final(self).wf(),
            final(self).spec_config() == old(self).spec_config(),
            final(self).next_id() == old(self).next_id(),
            final(self).is_running() == old(self).is_running(),
            final(self).step_limit() == old(self).step_limit(),
            final(self).sched().completed.len() == 0,
            final(self).steps_of_last_run() <= old(self).step_limit(),
            !old(self).is_running() ==> final(self).steps_of_last_run() == 0,
            old(self).is_running() && final(self).steps_of_last_run() < old(self).step_limit() ==> !has_work(
                final(self).sched(),
            ),
            exists|drained: Seq<RequestView>|
                #[trigger] reports_all(r@, drained) && old(self).sched().completed.is_prefix_of(drained),
            held_requests(old(self).sched()) == held_requests(final(self).sched()).add(report_rids(r@).to_multiset()),
            old(self).is_running() && final(self).steps_of_last_run() < old(self).step_limit() ==> report_rids(
                r@,
            ).to_multiset() == held_requests(old(self).sched()),
            final(self).steps_of_last_run() == 0 ==> drain_reports(r@, final(self).sched(), old(self).sched()),
            same_tokenizer(*old(self), *final(self)),
    {
        let (mut all_completed, _) = self.collect_completed_requests();
        let ghost first = all_completed@;
        let ghost first_sched = self.sched();
        let ghost mut drained: Seq<RequestView> = old(self).sched().completed;
        let mut idle_steps: u32 = 0;
        let mut steps: u64 = 0;
        proof {
            assert(old(self).sched().completed.is_prefix_of(drained));
            lemma_drain_held(old(self).sched());
        }
        while self.running && self.scheduler.has_pending_work() && steps < self.max_steps
            invariant_except_break
                self.sched().completed.len() == 0,
                idle_steps < STALL_LIMIT,
            invariant
                self.wf(),
                self.spec_config() == old(self).spec_config(),
                self.next_id() == old(self).next_id(),
                self.is_running() == old(self).is_running(),
                self.step_limit() == old(self).step_limit(),
                steps <= self.max_steps,
                steps == 0 ==> self.sched() == first_sched && all_completed@ == first,
                !old(self).is_running() ==> steps == 0,
                reports_all(all_completed@, drained),
                old(self).sched().completed.is_prefix_of(drained),
                held_requests(old(self).sched()) == held_requests(self.sched()).add(done_rids(drained).to_multiset()),
                same_tokenizer(*old(self), *self),
            ensures
                held_requests(old(self).sched()) == held_requests(self.sched()).add(done_rids(drained).to_multiset()),
                reports_all(all_completed@, drained),
                steps <= self.max_steps,
                !self.running || !has_work(self.sched()) || steps == self.max_steps,
                same_tokenizer(*old(self), *self),
            decreases self.max_steps - steps,
        {
            steps = steps + 1;
            let completed_before = all_completed.len();
            let ghost before = self.sched();
            let ghost all_before = all_completed@;
            let ghost e_before = *self;
            let stepped = self.step();
            proof {
                InferenceEngine::lemma_same_tokenizer_trans(*old(self), e_before, *self);
                let pick = choose|res: Result<ExecutionOutput, ExecutionError>, failed: Seq<(RequestId, Seq<char>)>|
                    step_list_reports(
                        stepped,
                        self.sched(),
                        stepped_view(before, self.sched_limits(), self.eos(), res, failed),
                    );
                let pre = stepped_view(before, self.sched_limits(), self.eos(), pick.0, pick.1);
                law_step_keeps_requests(before, self.sched_limits(), self.eos(), pick.0, pick.1);
                lemma_drain_held(pre);
                lemma_done_rids_append(drained, pre.completed);
                let drained_before = drained;
                drained = drained + pre.completed;
                if stepped is Err {
                    assert(pre.completed.len() == 0);
                    assert(drained =~= drained_before);
                } else {
                    assert(drain_reports(stepped->Ok_0@, self.sched(), pre));
                }
                assert(held_requests(old(self).sched()) =~= held_requests(self.sched()).add(
                    done_rids(drained).to_multiset(),
                ));
                assert(old(self).sched().completed.is_prefix_of(drained));
            }
            match stepped {
                Ok(mut completed) => {
                    let ghost cs = completed@;
                    all_completed.append(&mut completed);
                    proof {
                        assert(all_completed@ == all_before + cs);
                        assert forall|i: int| 0 <= i < all_completed@.len() implies reports(
                            #[trigger] all_completed@[i],
                            drained[i],
                        ) by {
                            if i >= all_before.len() {
                                assert(all_completed@[i] == cs[i - all_before.len()]);
                            }
                        }
                    }
                },
                Err(_) => {},
            }
            let progressed = all_completed.len() != completed_before || self.scheduler.num_active_sequences() > 0;
            if progressed {
                idle_steps = 0;
            } else {
                idle_steps = idle_steps + 1;
                if idle_steps >= STALL_LIMIT {
                    let ghost e_mid = *self;
                    self.scheduler.fail_pending_requests("request 因 KV 预算/块不足永远无法启动");
                    proof {
                        InferenceEngine::lemma_same_tokenizer_kept(*old(self), e_mid, *self);
                        lemma_fail_pending_held(e_mid.sched(), "request 因 KV 预算/块不足永远无法启动"@);
                    }
                    break;
                }
            }
        }
        let ghost e_loop = *self;
        self.last_run_steps = Ghost(steps as nat);
        proof {
            InferenceEngine::lemma_same_tokenizer_kept(*old(self), e_loop, *self);
        }
        let ghost before_last = self.sched();
        let ghost all_before = all_completed@;
        let ghost e_last = *self;
        let (mut final_completed, _) = self.collect_completed_requests();
        proof {
            InferenceEngine::lemma_same_tokenizer_trans(*old(self), e_last, *self);
        }
        let ghost cs = final_completed@;
        proof {
            lemma_drain_held(before_last);
            lemma_done_rids_append(drained, before_last.completed);
            drained = drained + before_last.completed;
            assert(held_requests(old(self).sched()) =~= held_requests(self.sched()).add(done_rids(drained).to_multiset()));
        }
        all_completed.append(&mut final_completed);
        proof {
            assert(all_completed@ == all_before + cs);
            assert forall|i: int| 0 <= i < all_completed@.len() implies reports(
                #[trigger] all_completed@[i],
                drained[i],
            ) by {
                if i >= all_before.len() {
                    assert(all_completed@[i] == cs[i - all_before.len()]);
                }
            }
            assert(reports_all(all_completed@, drained));
            assert(report_rids(all_completed@) =~= done_rids(drained));
            if !has_work(self.sched()) {
                lemma_idle_holds_nothing(self.sched());
            }
            if steps == 0 {
                assert(cs.len() == 0);
                assert(all_completed@ =~= first);
            }
        }
        all_completed
    }

    /// Cancels request `request_id` wherever it is (see [`cancel_target`]);
    /// it surfaces as a failure in the next drain. Returns whether it was found.
    pub fn cancel_request(&mut self, request_id: RequestId) -> (r: bool)
        requires
            old(self).wf(),
        ensures
            final(self).wf(),
            final(self).spec_config() == old(self).spec_config(),
            final(self).next_id() == old(self).next_id(),
            r == cancel_target(old(self).sched(), request_id) is Some,
            match cancel_target(old(self).sched(), request_id) {
                Some(id) => final(self).sched() == fail_view(old(self).sched(), id, cancel_reason()),
                None => final(self).sched() == old(self).sched(),
            },
    {
        self.scheduler.cancel_by_request_id(request_id)
    }

    /// Whether any request is pending or active.
    pub fn has_pending_work(&self) -> (r: bool)
        requires
            self.wf(),
        ensures
            r == (self.sched().pending.len() > 0 || self.sched().prefill.len() > 0 || self.sched().decode.len() > 0),
    {
        self.scheduler.has_pending_work()
    }

    /// Fails every pending request with `reason`; returns how many there were.
    pub fn fail_pending_requests(&mut self, reason: &str) -> (r: usize)
        requires
            old(self).wf(),
        ensures
            final(self).wf(),
            final(self).spec_config() == old(self).spec_config(),
            final(self).next_id() == old(self).next_id(),
            r == old(self).sched().pending.len(),
            final(self).sched() == (SchedView {
                pending: Seq::empty(),
                completed: old(self).sched().completed + old(self).sched().pending.map_values(
                    |p: (SeqId, RequestView)| with_state(p.1, StateView::Failed(reason@)),
                ),
                ..old(self).sched()
            }),
            final(self).sched_limits() == old(self).sched_limits(),
            final(self).submitted() == old(self).submitted(),
            final(self).step_limit() == old(self).step_limit(),
            final(self).is_running() == old(self).is_running(),
            final(self).eos() == old(self).eos(),
            final(self).live_decoders() == old(self).live_decoders(),
            same_tokenizer(*old(self), *final(self)),
    {
        self.scheduler.fail_pending_requests(reason)
    }

    /// A well-formed engine's scheduler state satisfies the scheduler's
    /// invariant (see [`sched_inv`]).
    pub proof fn lemma_sched_inv(&self)
        requires
            self.wf(),
        ensures
            sched_inv(self.sched(), self.sched_limits()),
    {
        self.scheduler.lemma_wf_inv();
    }

    /// Law: once no request is pending or active, every KV block is free
    /// again: whatever path the requests took to their end, the memory
    /// utilization is back to zero.
    pub proof fn law_idle_releases_memory(&self)
        requires
            self.wf(),
            self.sched().pending.len() == 0,
            self.sched().prefill.len() == 0,
            self.sched().decode.len() == 0,
        ensures
            self.sched().free.len() == self.sched_limits().max_num_blocks,
    {
        self.scheduler.law_idle_memory();
    }

    /// KV pool utilization, in millionths.
    pub fn memory_utilization(&self) -> (r: u64)
        requires
            self.wf(),
        ensures
            r == (if self.sched_limits().max_num_blocks == 0 {
                0
            } else {
                ((self.sched_limits().max_num_blocks - self.sched().free.len()) * crate::config::PPM_ONE)
                    / self.sched_limits().max_num_blocks as int
            }),
    {
        self.scheduler.get_memory_utilization()
    }

    /// The configuration.
    pub fn config(&self) -> (r: &EngineConfig)
        ensures
            *r == self.spec_config(),
    {
        &self.config
    }

    /// Runtime counters.
    pub fn get_metrics(&self) -> (r: EngineMetrics)
        requires
            self.wf(),
        ensures
            r.total_requests == self.submitted(),
            r.memory_utilization == (if self.sched_limits().max_num_blocks == 0 {
                0
            } else {
                ((self.sched_limits().max_num_blocks - self.sched().free.len()) * crate::config::PPM_ONE)
                    / self.sched_limits().max_num_blocks as int
            }),
            r.active_sequences == (self.sched().prefill.len() + self.sched().decode.len()) as u32,
            r.completed_requests == self.completed_count(),
            r.failed_requests == self.failed_count(),
            r.total_tokens_generated == self.tokens_generated(),
    {
        EngineMetrics {
            total_requests: self.total_requests,
            completed_requests: self.completed_requests_count,
            failed_requests: self.failed_requests_count,
            total_tokens_generated: self.total_tokens_generated,
            memory_utilization: self.memory_utilization(),
            active_sequences: self.scheduler.num_active_sequences() as u32,
        }
    }

    /// Limits each `run` to `max_steps` steps.
    pub fn set_max_steps(&mut self, max_steps: u64)
        ensures
            final(self).step_limit() == max_steps,
            final(self).sched() == old(self).sched(),
            final(self).wf() == old(self).wf(),
            final(self).spec_config() == old(self).spec_config(),
            final(self).next_id() == old(self).next_id(),
            final(self).is_running() == old(self).is_running(),
    {
        self.max_steps = max_steps;
    }

    /// Stops: later `run` calls take no step.
    pub fn stop(&mut self)
        ensures
            !final(self).is_running(),
            final(self).sched() == old(self).sched(),
            final(self).wf() == old(self).wf(),
            final(self).spec_config() == old(self).spec_config(),
            final(self).next_id() == old(self).next_id(),
            final(self).step_limit() == old(self).step_limit(),
    {
        self.running = false;
    }

    /// Number of live incremental decoders.
    pub fn num_live_decoders(&self) -> (r: usize)
        ensures
            r == self.live_decoders().len(),
    {
        self.decoders.len()
    }
}

} // verus!
