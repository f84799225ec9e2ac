//! Continuous-batching scheduler.
//!
//! Each step schedules, in this order and within the batch limits:
//! 1. decode sequences, growing their KV blocks as they need;
//! 2. sequences whose prefill was started but not yet executed;
//! 3. pending requests, first come first served, unless the KV pool is under
//!    memory pressure.
//!
//! Active sequences are kept in the order in which they entered their phase,
//! and each phase is walked in that order.
use std::collections::VecDeque;
use std::sync::Arc;
use vstd::prelude::*;
use vstd::string::StringExecFns;
use vstd::multiset::Multiset;

use crate::config::{EngineConfig, Limits, PPM_ONE};
use crate::error::{MemoryError, SchedulerError};
use crate::gpu_executor::{context_fits, prompt_total};
use crate::kv_cache::{ceil_div, KVCacheManager, KVCacheManagerTrait};
use crate::text::{concat_text, decimal, text_with_two_numbers};
use crate::types::{
    fully_mapped, physical_indices, request_views, seq_views, arc_views, ExecutionOutput,
    output_complete, LogicalBlock, MemoryStats, PhysicalBlockRef, Request, RequestId, RequestState, RequestView,
    SchedulerOutput, SeqId, Sequence, SequenceView, StateView, TokenId, BlockIdx,
};

verus! {

/// A request waiting for its prefill.
#[derive(Debug, Clone)]
struct PendingRequest {
    seq_id: SeqId,
    request: Request,
}

/// The value of a scheduler.
pub struct SchedView {
    /// Waiting requests with their sequence ids, front first.
    pub pending: Seq<(SeqId, RequestView)>,
    /// Sequences whose prefill has started.
    pub prefill: Seq<SequenceView>,
    /// Sequences that generate tokens.
    pub decode: Seq<SequenceView>,
    /// Finished requests not yet taken.
    pub completed: Seq<RequestView>,
    /// The KV pool's free list.
    pub free: Seq<BlockIdx>,
    /// The KV blocks of each active sequence.
    pub tables: Map<SeqId, Seq<BlockIdx>>,
    /// The id the next request receives.
    pub next_seq_id: SeqId,
}

/// The ids of sequences, in order.
pub open spec fn seq_ids(ss: Seq<SequenceView>) -> Seq<SeqId> {
    ss.map_values(|s: SequenceView| s.seq_id)
}

/// The ids of pending requests, in order.
pub open spec fn pending_ids(ps: Seq<(SeqId, RequestView)>) -> Seq<SeqId> {
    ps.map_values(|p: (SeqId, RequestView)| p.0)
}

/// Position of `id` in `ids`, or -1.
pub open spec fn position(ids: Seq<SeqId>, id: SeqId) -> int {
    if ids.contains(id) {
        choose|i: int| 0 <= i < ids.len() && ids[i] == id
    } else {
        -1
    }
}

/// In a sequence without duplicates, the position of the element at `i` is `i`.
pub proof fn lemma_position(ids: Seq<SeqId>, i: int)
    requires
        ids.no_duplicates(),
        0 <= i < ids.len(),
    ensures
        position(ids, ids[i]) == i,
{
    assert(ids.contains(ids[i]));
}

/// A request with another state.
pub open spec fn with_state(r: RequestView, st: StateView) -> RequestView {
    RequestView { state: st, ..r }
}

/// Every id the scheduler holds: pending, then prefill, then decode.
pub open spec fn all_ids(v: SchedView) -> Seq<SeqId> {
    pending_ids(v.pending) + seq_ids(v.prefill) + seq_ids(v.decode)
}

/// The ids of the active (prefill or decode) sequences.
pub open spec fn active_ids(v: SchedView) -> Set<SeqId> {
    (seq_ids(v.prefill) + seq_ids(v.decode)).to_set()
}

/// An active sequence's blocks are fully mapped and are those of its KV page table.
pub open spec fn blocks_match(s: SequenceView, tables: Map<SeqId, Seq<BlockIdx>>) -> bool {
    &&& fully_mapped(s.blocks)
    &&& tables.contains_key(s.seq_id)
    &&& physical_indices(s.blocks) == tables[s.seq_id]
}

/// A decode sequence has room for one more token under `max_model_len`.
pub open spec fn decode_ok(s: SequenceView, lim: Limits) -> bool {
    &&& s.request.input.len() + s.request.output.len() < lim.max_model_len
    &&& s.num_generated_tokens <= s.request.output.len()
    &&& s.request.state == StateView::Decode
}

/// A prefill sequence has generated nothing yet.
pub open spec fn prefill_ok(s: SequenceView) -> bool {
    &&& s.request.state == StateView::Prefill
    &&& s.num_generated_tokens == 0
}

/// A decode sequence while the tokens of one execution are recorded: `n`
/// tokens have been handed out so far, and the sequences of `due` are about
/// to complete, so they may have reached `max_model_len`.
pub open spec fn decode_during(s: SequenceView, lim: Limits, due: Seq<SeqId>, n: int) -> bool {
    &&& s.request.state == StateView::Decode
    &&& s.num_generated_tokens <= s.request.output.len()
    &&& s.num_generated_tokens <= lim.max_model_len + n
    &&& (s.request.input.len() + s.request.output.len() < lim.max_model_len || due.contains(s.seq_id))
}

/// The scheduler's invariant while an execution's tokens are recorded (see
/// [`decode_during`]).
pub open spec fn inv_during(v: SchedView, lim: Limits, due: Seq<SeqId>, n: int) -> bool {
    &&& lim.block_size > 0
    &&& all_ids(v).no_duplicates()
    &&& forall|k: int| 0 <= k < all_ids(v).len() ==> #[trigger] all_ids(v)[k] < v.next_seq_id
    &&& v.tables.dom() == active_ids(v)
    &&& forall|i: int| 0 <= i < v.prefill.len() ==> blocks_match(#[trigger] v.prefill[i], v.tables)
        && prefill_ok(v.prefill[i])
    &&& forall|i: int| 0 <= i < v.decode.len() ==> blocks_match(#[trigger] v.decode[i], v.tables)
        && decode_during(v.decode[i], lim, due, n)
    &&& v.pending.len() + v.prefill.len() + v.decode.len() <= usize::MAX
}

/// The scheduler's invariant over its value.
pub open spec fn sched_inv(v: SchedView, lim: Limits) -> bool {
    inv_during(v, lim, Seq::empty(), 0)
}

/// Whether a pool of `total` blocks with `free_len` free ones is at or above
/// the threshold (in millionths).
pub open spec fn under_pressure(free_len: nat, total: nat, threshold: i64) -> bool {
    (MemoryStats {
        total_blocks: total as u32,
        used_blocks: (total - free_len) as u32,
        free_blocks: free_len as u32,
        num_sequences: 0,
    }).at_least(threshold)
}

/// The effect of failing sequence `id` with `reason`: it leaves its queue,
/// its blocks return to the back of the free list, and it joins the
/// completed requests as failed.
pub open spec fn fail_view(v: SchedView, id: SeqId, reason: Seq<char>) -> SchedView {
    let di = position(seq_ids(v.decode), id);
    let pi = position(seq_ids(v.prefill), id);
    let qi = position(pending_ids(v.pending), id);
    if di >= 0 {
        SchedView {
            decode: v.decode.remove(di),
            completed: v.completed.push(with_state(v.decode[di].request, StateView::Failed(reason))),
            free: v.free + v.tables[id],
            tables: v.tables.remove(id),
            ..v
        }
    } else if pi >= 0 {
        SchedView {
            prefill: v.prefill.remove(pi),
            completed: v.completed.push(with_state(v.prefill[pi].request, StateView::Failed(reason))),
            free: v.free + v.tables[id],
            tables: v.tables.remove(id),
            ..v
        }
    } else if qi >= 0 {
        SchedView {
            pending: v.pending.remove(qi),
            completed: v.completed.push(with_state(v.pending[qi].1, StateView::Failed(reason))),
            ..v
        }
    } else {
        v
    }
}

/// The effect of completing active sequence `id`: it leaves its queue (decode
/// looked up first), its blocks return to the pool, and it joins the
/// completed requests.
pub open spec fn complete_view(v: SchedView, id: SeqId) -> SchedView {
    let di = position(seq_ids(v.decode), id);
    let pi = position(seq_ids(v.prefill), id);
    if di >= 0 {
        SchedView {
            decode: v.decode.remove(di),
            completed: v.completed.push(with_state(v.decode[di].request, StateView::Completed)),
            free: v.free + v.tables[id],
            tables: v.tables.remove(id),
            ..v
        }
    } else if pi >= 0 {
        SchedView {
            prefill: v.prefill.remove(pi),
            completed: v.completed.push(with_state(v.prefill[pi].request, StateView::Completed)),
            free: v.free + v.tables[id],
            tables: v.tables.remove(id),
            ..v
        }
    } else {
        v
    }
}

/// The scheduler's operations.
pub trait SchedulerTrait {
    /// The scheduler's invariant.
    spec fn sched_ok(&self) -> bool;

    /// Room for one more request: an unused id and room in memory.
    spec fn has_room(&self) -> bool;

    /// An execution output of `n` entries can be recorded without a token
    /// counter overflowing.
    spec fn output_fits(&self, n: nat) -> bool;

    /// Queues a new request and returns its sequence id.
    fn add_request(&mut self, request: Request) -> (r: Result<SeqId, SchedulerError>)
        requires
            old(self).sched_ok(),
            old(self).has_room(),
        ensures
            final(self).sched_ok(),
    ;

    /// Chooses the sequences of the next step.
    fn schedule(&mut self) -> (r: SchedulerOutput)
        requires
            old(self).sched_ok(),
        ensures
            final(self).sched_ok(),
    ;

    /// Records the tokens one step generated.
    fn update_sequences(&mut self, outputs: &ExecutionOutput, eos_token_id: TokenId)
        requires
            old(self).sched_ok(),
            old(self).output_fits(outputs.seq_ids@.len()),
        ensures
            final(self).sched_ok(),
    ;

    /// Takes the finished requests.
    fn get_completed(&mut self) -> (r: Vec<Request>)
        requires
            old(self).sched_ok(),
        ensures
            final(self).sched_ok(),
    ;

    /// Whether any request is pending or active.
    fn has_pending_work(&self) -> bool
        requires
            self.sched_ok(),
    ;

    /// KV pool utilization, in millionths.
    fn get_memory_utilization(&self) -> u64
        requires
            self.sched_ok(),
    ;
}

/// The continuous-batching scheduler.
pub struct Scheduler {
    config: EngineConfig,
    kv_cache: KVCacheManager,
    pending_queue: VecDeque<PendingRequest>,
    prefill_sequences: Vec<Sequence>,
    decode_sequences: Vec<Sequence>,
    completed_requests: Vec<Request>,
    next_seq_id: SeqId,
    under_memory_pressure: bool,
}

/// The values of pending requests.
spec fn pending_views(q: Seq<PendingRequest>) -> Seq<(SeqId, RequestView)> {
    q.map_values(|p: PendingRequest| (p.seq_id, p.request@))
}

impl View for Scheduler {
    type V = SchedView;

    closed spec fn view(&self) -> SchedView {
        SchedView {
            pending: pending_views(self.pending_queue@),
            prefill: seq_views(self.prefill_sequences@),
            decode: seq_views(self.decode_sequences@),
            completed: request_views(self.completed_requests@),
            free: self.kv_cache.pool().free_seq(),
            tables: self.kv_cache.tables(),
            next_seq_id: self.next_seq_id,
        }
    }
}

impl Scheduler {
    /// The scheduler's numeric settings.
    pub closed spec fn limits(&self) -> Limits {
        self.config.limits()
    }

    /// The scheduler's invariant.
    pub closed spec fn wf(&self) -> bool {
        &&& sched_inv(self@, self.limits())
        &&& self.kv_ok()
    }

    /// The KV cache is well formed and sized by the configuration.
    closed spec fn kv_ok(&self) -> bool {
        &&& self.kv_cache.cache_inv()
        &&& self.kv_cache.pool().spec_block_size() == self.config.block_size
        &&& self.kv_cache.pool().total() == self.config.max_num_blocks
    }

    /// A scheduler with empty queues and a KV pool of `max_num_blocks` blocks.
    pub fn new(config: EngineConfig) -> (s: Self)
        requires
            config.block_size > 0,
        ensures
            s.wf(),
            s.limits() == config.limits(),
            s@.pending.len() == 0,
            s@.prefill.len() == 0,
            s@.decode.len() == 0,
            s@.completed.len() == 0,
            s@.tables == Map::<SeqId, Seq<BlockIdx>>::empty(),
            s@.free == Seq::new(config.max_num_blocks as nat, |i: int| i as u32),
            s@.next_seq_id == 1,
            s.room(),
    {
        let kv_cache = KVCacheManager::new(config.max_num_blocks, config.block_size);
        let s = Self {
            config,
            kv_cache,
            pending_queue: VecDeque::new(),
            prefill_sequences: Vec::new(),
            decode_sequences: Vec::new(),
            completed_requests: Vec::new(),
            next_seq_id: 1,
            under_memory_pressure: false,
        };
        proof {
            assert(all_ids(s@) =~= Seq::<SeqId>::empty());
            assert(active_ids(s@) =~= Set::<SeqId>::empty());
        }
        s
    }

    /// A well-formed scheduler's state satisfies the scheduler's invariant
    /// (see [`sched_inv`]), which the laws over states take.
    pub proof fn lemma_wf_inv(&self)
        requires
            self.wf(),
        ensures
            sched_inv(self@, self.limits()),
    {
    }

    /// Law: with no active sequence every block of the pool is free, so the
    /// memory utilization is back to zero.
    pub proof fn law_idle_memory(&self)
        requires
            self.wf(),
            self@.prefill.len() == 0,
            self@.decode.len() == 0,
        ensures
            self@.free.len() == self.limits().max_num_blocks,
    {
        assert(seq_ids(self@.prefill) + seq_ids(self@.decode) =~= Seq::<SeqId>::empty());
        assert(active_ids(self@) =~= Set::<SeqId>::empty());
        self.kv_cache.law_idle_pool_free();
    }

    /// Whether the pool is at or above the memory threshold.
    fn pool_under_pressure(&self) -> (r: bool)
        requires
            self.wf(),
        ensures
            r == under_pressure(self@.free.len(), self.limits().max_num_blocks as nat, self.limits().memory_threshold),
    {
        let stats = self.kv_cache.get_memory_stats();
        stats.utilization_at_least(self.config.memory_threshold)
    }

    /// Recomputes the memory-pressure flag.
    fn update_memory_pressure(&mut self)
        requires
            old(self).wf(),
        ensures
            final(self).wf(),
            final(self)@ == old(self)@,
            final(self).limits() == old(self).limits(),
            final(self).under_memory_pressure == under_pressure(
                old(self)@.free.len(),
                old(self).limits().max_num_blocks as nat,
                old(self).limits().memory_threshold,
            ),
    {
        self.under_memory_pressure = self.pool_under_pressure();
    }

    /// Number of prefill and decode sequences.
    pub fn num_active_sequences(&self) -> (r: usize)
        requires
            self.wf(),
        ensures
            r == self@.prefill.len() + self@.decode.len(),
    {
        self.prefill_sequences.len() + self.decode_sequences.len()
    }

    /// Whether the sequence is in exactly one of the prefill and decode queues.
    pub fn is_in_exactly_one_queue(&self, seq_id: SeqId) -> (r: bool)
        requires
            self.wf(),
        ensures
            r == (seq_ids(self@.prefill).contains(seq_id) != seq_ids(self@.decode).contains(seq_id)),
    {
        let in_prefill = find_sequence(&self.prefill_sequences, seq_id).is_some();
        let in_decode = find_sequence(&self.decode_sequences, seq_id).is_some();
        (in_prefill && !in_decode) || (!in_prefill && in_decode)
    }

    /// Whether a request with this sequence id waits in the pending queue.
    pub fn is_pending(&self, seq_id: SeqId) -> (r: bool)
        requires
            self.wf(),
        ensures
            r == exists|i: int| 0 <= i < self@.pending.len() && (#[trigger] self@.pending[i]).0 == seq_id,
    {
        let mut i: usize = 0;
        while i < self.pending_queue.len()
            invariant
                i <= self.pending_queue@.len(),
                self@.pending == pending_views(self.pending_queue@),
                forall|j: int| 0 <= j < i ==> (#[trigger] self@.pending[j]).0 != seq_id,
            decreases self.pending_queue@.len() - i,
        {
            if self.pending_queue[i].seq_id == seq_id {
                assert(self@.pending[i as int].0 == seq_id);
                return true;
            }
            i += 1;
        }
        false
    }

    /// The active sequence with this id, looked up in prefill first.
    pub fn get_sequence(&self, seq_id: SeqId) -> (r: Option<&Sequence>)
        requires
            self.wf(),
        ensures
            match r {
                Some(s) => s.seq_id == seq_id && (seq_ids(self@.prefill).contains(seq_id)
                    || seq_ids(self@.decode).contains(seq_id)) && (seq_ids(self@.prefill).contains(
                    seq_id,
                ) ==> s@ == self@.prefill[position(seq_ids(self@.prefill), seq_id)]) && (
                !seq_ids(self@.prefill).contains(seq_id) ==> s@ == self@.decode[position(
                    seq_ids(self@.decode),
                    seq_id,
                )]),
                None => !seq_ids(self@.prefill).contains(seq_id) && !seq_ids(
                    self@.decode,
                ).contains(seq_id),
            },
    {
        proof {
            self.lemma_ids_distinct();
        }
        match find_sequence(&self.prefill_sequences, seq_id) {
            Some(i) => {
                proof {
                    lemma_position(seq_ids(self@.prefill), i as int);
                }
                Some(&self.prefill_sequences[i])
            },
            None => match find_sequence(&self.decode_sequences, seq_id) {
                Some(i) => {
                    proof {
                        lemma_position(seq_ids(self@.decode), i as int);
                    }
                    Some(&self.decode_sequences[i])
                },
                None => None,
            },
        }
    }

    /// Mutable access to the active sequence with this id, looked up in
    /// prefill first; what is written through it replaces that sequence.
    pub fn get_sequence_mut(&mut self, seq_id: SeqId) -> (r: Option<&mut Sequence>)
        requires
            old(self).wf(),
        ensures
            ({
                let v = old(self)@;
                let pi = position(seq_ids(v.prefill), seq_id);
                let di = position(seq_ids(v.decode), seq_id);
                match r {
                    Some(s) => if pi >= 0 {
                        &&& (*s)@ == v.prefill[pi]
                        &&& final(self)@ == (SchedView { prefill: v.prefill.update(pi, (*final(s))@), ..v })
                    } else {
                        &&& di >= 0
                        &&& (*s)@ == v.decode[di]
                        &&& final(self)@ == (SchedView { decode: v.decode.update(di, (*final(s))@), ..v })
                    },
                    None => pi < 0 && di < 0 && final(self)@ == v,
                }
            }),
    {
        proof {
            self.lemma_ids_distinct();
        }
        let ghost v = self@;
        match find_sequence(&self.prefill_sequences, seq_id) {
            Some(i) => {
                proof {
                    lemma_position(seq_ids(v.prefill), i as int);
                }
                let ghost old_vec = self.prefill_sequences@;
                let r = &mut self.prefill_sequences[i];
                proof {
                    lemma_seq_views_update(old_vec, i as int, *final(r));
                }
                Some(r)
            },
            None => match find_sequence(&self.decode_sequences, seq_id) {
                Some(i) => {
                    proof {
                        lemma_position(seq_ids(v.decode), i as int);
                    }
                    let ghost old_vec = self.decode_sequences@;
                    let r = &mut self.decode_sequences[i];
                    proof {
                        lemma_seq_views_update(old_vec, i as int, *final(r));
                    }
                    Some(r)
                },
                None => None,
            },
        }
    }

    /// Ids are distinct within each queue.
    proof fn lemma_ids_distinct(&self)
        requires
            self.wf(),
        ensures
            seq_ids(self@.prefill).no_duplicates(),
            seq_ids(self@.decode).no_duplicates(),
            pending_ids(self@.pending).no_duplicates(),
            forall|a: SeqId| #[trigger] seq_ids(self@.prefill).contains(a) ==> !seq_ids(self@.decode).contains(a)
                && !pending_ids(self@.pending).contains(a),
            forall|a: SeqId| #[trigger] seq_ids(self@.decode).contains(a) ==> !pending_ids(self@.pending).contains(a),
    {
        lemma_ids_parts(self@);
    }
}

/// The values of a sequence list with one element replaced.
proof fn lemma_seq_views_update(ss: Seq<Sequence>, i: int, x: Sequence)
    requires
        0 <= i < ss.len(),
    ensures
        seq_views(ss.update(i, x)) == seq_views(ss).update(i, x@),
{
    assert(seq_views(ss.update(i, x)) =~= seq_views(ss).update(i, x@));
}

/// The queues' ids are distinct within and across queues when `all_ids` is.
pub proof fn lemma_ids_parts(v: SchedView)
    requires
        all_ids(v).no_duplicates(),
    ensures
        seq_ids(v.prefill).no_duplicates(),
        seq_ids(v.decode).no_duplicates(),
        pending_ids(v.pending).no_duplicates(),
        forall|a: SeqId| #[trigger] seq_ids(v.prefill).contains(a) ==> !seq_ids(v.decode).contains(a)
            && !pending_ids(v.pending).contains(a),
        forall|a: SeqId| #[trigger] seq_ids(v.decode).contains(a) ==> !pending_ids(v.pending).contains(a),
{
    let q = pending_ids(v.pending);
    let p = seq_ids(v.prefill);
    let d = seq_ids(v.decode);
    let all = all_ids(v);
    assert(all == q + p + d);
    assert forall|x: int, y: int| 0 <= x < p.len() && 0 <= y < p.len() && x != y implies p[x] != p[y] by {
        assert(all[q.len() + x] == p[x]);
        assert(all[q.len() + y] == p[y]);
    }
    assert forall|x: int, y: int| 0 <= x < d.len() && 0 <= y < d.len() && x != y implies d[x] != d[y] by {
        assert(all[q.len() + p.len() + x] == d[x]);
        assert(all[q.len() + p.len() + y] == d[y]);
    }
    assert forall|x: int, y: int| 0 <= x < q.len() && 0 <= y < q.len() && x != y implies q[x] != q[y] by {
        assert(all[x] == q[x]);
        assert(all[y] == q[y]);
    }
    assert forall|a: SeqId| #[trigger] p.contains(a) implies !d.contains(a) && !q.contains(a) by {
        let x = choose|x: int| 0 <= x < p.len() && p[x] == a;
        assert(all[q.len() + x] == a);
        if d.contains(a) {
            let y = choose|y: int| 0 <= y < d.len() && d[y] == a;
            assert(all[q.len() + p.len() + y] == a);
        }
        if q.contains(a) {
            let y = choose|y: int| 0 <= y < q.len() && q[y] == a;
            assert(all[y] == a);
        }
    }
    assert forall|a: SeqId| #[trigger] d.contains(a) implies !q.contains(a) by {
        let x = choose|x: int| 0 <= x < d.len() && d[x] == a;
        assert(all[q.len() + p.len() + x] == a);
        if q.contains(a) {
            let y = choose|y: int| 0 <= y < q.len() && q[y] == a;
            assert(all[y] == a);
        }
    }
}

/// The index of the sequence with this id, if any.
fn find_sequence(v: &Vec<Sequence>, seq_id: SeqId) -> (r: Option<usize>)
    ensures
        match r {
            Some(i) => i < v@.len() && v@[i as int].seq_id == seq_id,
            None => !seq_ids(seq_views(v@)).contains(seq_id),
        },
        r is Some <==> seq_ids(seq_views(v@)).contains(seq_id),
{
    let mut i: usize = 0;
    while i < v.len()
        invariant
            i <= v@.len(),
            forall|k: int| 0 <= k < i ==> v@[k].seq_id != seq_id,
        decreases v@.len() - i,
    {
        if v[i].seq_id == seq_id {
            proof {
                assert(seq_ids(seq_views(v@))[i as int] == seq_id);
            }
            return Some(i);
        }
        i = i + 1;
    }
    proof {
        if seq_ids(seq_views(v@)).contains(seq_id) {
            let k = choose|k: int| 0 <= k < v@.len() && seq_ids(seq_views(v@))[k] == seq_id;
            assert(v@[k].seq_id == seq_id);
        }
    }
    None
}


/// Removing the decode sequence at `i` together with its page table keeps
/// the invariant.
pub proof fn lemma_remove_decode(v: SchedView, i: int, lim: Limits, due: Seq<SeqId>, n: int, w: SchedView)
    requires
        inv_during(v, lim, due, n),
        0 <= i < v.decode.len(),
        w.pending == v.pending,
        w.prefill == v.prefill,
        w.decode == v.decode.remove(i),
        w.tables == v.tables.remove(v.decode[i].seq_id),
        w.next_seq_id == v.next_seq_id,
    ensures
        inv_during(w, lim, due, n),
{
    let id = v.decode[i].seq_id;
    lemma_ids_parts(v);
    let q = pending_ids(v.pending);
    let p = seq_ids(v.prefill);
    let d = seq_ids(v.decode);
    assert(seq_ids(w.decode) =~= d.remove(i));
    assert(all_ids(w) =~= all_ids(v).remove(q.len() + p.len() + i));
    assert forall|x: int, y: int| 0 <= x < all_ids(w).len() && 0 <= y < all_ids(w).len() && x != y implies all_ids(w)[x] != all_ids(w)[y] by {
        let a = all_ids(v);
        let k = q.len() + p.len() + i;
        let xx = if x < k { x } else { x + 1 };
        let yy = if y < k { y } else { y + 1 };
        assert(all_ids(w)[x] == a[xx]);
        assert(all_ids(w)[y] == a[yy]);
    }
    assert forall|k: int| 0 <= k < all_ids(w).len() implies #[trigger] all_ids(w)[k] < w.next_seq_id by {
        let kk = q.len() + p.len() + i;
        if k < kk {
            assert(all_ids(w)[k] == all_ids(v)[k]);
        } else {
            assert(all_ids(w)[k] == all_ids(v)[k + 1]);
        }
    }
    assert(d[i] == id);
    assert forall|a: SeqId| #[trigger] active_ids(w).contains(a) <==> active_ids(v).contains(a) && a != id by {
        let pd = p + d;
        let pw = seq_ids(w.prefill) + seq_ids(w.decode);
        assert(pw =~= pd.remove(p.len() + i));
        if pw.contains(a) {
            let x = choose|x: int| 0 <= x < pw.len() && pw[x] == a;
            if x < p.len() + i {
                assert(pd[x] == a);
                if a == id {
                    if x < p.len() {
                        assert(p.contains(a));
                    } else {
                        assert(d[x - p.len()] == d[i]);
                    }
                }
            } else {
                assert(pd[x + 1] == a);
                assert(d[x + 1 - p.len()] == a);
                assert(x + 1 - p.len() != i);
            }
            assert(pd.contains(a));
        }
        if pd.contains(a) && a != id {
            let x = choose|x: int| 0 <= x < pd.len() && pd[x] == a;
            assert(x != p.len() + i);
            if x < p.len() + i {
                assert(pw[x] == a);
            } else {
                assert(pw[x - 1] == a);
            }
        }
    }
    assert(w.tables.dom() =~= active_ids(w));
    assert forall|j: int| 0 <= j < w.prefill.len() implies blocks_match(#[trigger] w.prefill[j], w.tables)
        && prefill_ok(w.prefill[j]) by {
        assert(blocks_match(v.prefill[j], v.tables));
        assert(p.contains(w.prefill[j].seq_id)) by {
            assert(p[j] == w.prefill[j].seq_id);
        }
    }
    assert forall|j: int| 0 <= j < w.decode.len() implies blocks_match(#[trigger] w.decode[j], w.tables)
        && decode_during(w.decode[j], lim, due, n) by {
        let jj = if j < i { j } else { j + 1 };
        assert(w.decode[j] == v.decode[jj]);
        assert(blocks_match(v.decode[jj], v.tables));
        assert(d[jj] != d[i]);
    }
}

/// Removing the prefill sequence at `i` together with its page table keeps
/// the invariant.
pub proof fn lemma_remove_prefill(v: SchedView, i: int, lim: Limits, due: Seq<SeqId>, n: int, w: SchedView)
    requires
        inv_during(v, lim, due, n),
        0 <= i < v.prefill.len(),
        w.pending == v.pending,
        w.prefill == v.prefill.remove(i),
        w.decode == v.decode,
        w.tables == v.tables.remove(v.prefill[i].seq_id),
        w.next_seq_id == v.next_seq_id,
    ensures
        inv_during(w, lim, due, n),
{
    let id = v.prefill[i].seq_id;
    lemma_ids_parts(v);
    let q = pending_ids(v.pending);
    let p = seq_ids(v.prefill);
    let d = seq_ids(v.decode);
    assert(seq_ids(w.prefill) =~= p.remove(i));
    assert(all_ids(w) =~= all_ids(v).remove(q.len() + i));
    assert forall|x: int, y: int| 0 <= x < all_ids(w).len() && 0 <= y < all_ids(w).len() && x != y implies all_ids(w)[x] != all_ids(w)[y] by {
        let a = all_ids(v);
        let k = q.len() + i;
        let xx = if x < k { x } else { x + 1 };
        let yy = if y < k { y } else { y + 1 };
        assert(all_ids(w)[x] == a[xx]);
        assert(all_ids(w)[y] == a[yy]);
    }
    assert forall|k: int| 0 <= k < all_ids(w).len() implies #[trigger] all_ids(w)[k] < w.next_seq_id by {
        let kk = q.len() + i;
        if k < kk {
            assert(all_ids(w)[k] == all_ids(v)[k]);
        } else {
            assert(all_ids(w)[k] == all_ids(v)[k + 1]);
        }
    }
    assert(p[i] == id);
    assert forall|a: SeqId| #[trigger] active_ids(w).contains(a) <==> active_ids(v).contains(a) && a != id by {
        let pd = p + d;
        let pw = seq_ids(w.prefill) + seq_ids(w.decode);
        assert(pw =~= pd.remove(i));
        if pw.contains(a) {
            let x = choose|x: int| 0 <= x < pw.len() && pw[x] == a;
            if x < i {
                assert(pd[x] == a);
                assert(p[x] == a);
                assert(a != id);
            } else {
                assert(pd[x + 1] == a);
                if x + 1 < p.len() {
                    assert(p[x + 1] == a);
                    assert(a != id);
                } else {
                    assert(d[x + 1 - p.len()] == a);
                    assert(d.contains(a));
                    assert(p.contains(id));
                    assert(a != id);
                }
            }
            assert(pd.contains(a));
        }
        if pd.contains(a) && a != id {
            let x = choose|x: int| 0 <= x < pd.len() && pd[x] == a;
            assert(x != i);
            if x < i {
                assert(pw[x] == a);
            } else {
                assert(pw[x - 1] == a);
            }
        }
    }
    assert(w.tables.dom() =~= active_ids(w));
    assert forall|j: int| 0 <= j < w.prefill.len() implies blocks_match(#[trigger] w.prefill[j], w.tables)
        && prefill_ok(w.prefill[j]) by {
        let jj = if j < i { j } else { j + 1 };
        assert(w.prefill[j] == v.prefill[jj]);
        assert(blocks_match(v.prefill[jj], v.tables));
        assert(p[jj] != p[i]);
    }
    assert forall|j: int| 0 <= j < w.decode.len() implies blocks_match(#[trigger] w.decode[j], w.tables)
        && decode_during(w.decode[j], lim, due, n) by {
        assert(blocks_match(v.decode[j], v.tables));
        assert(d[j] == v.decode[j].seq_id);
        assert(!p.contains(d[j]));
    }
}

/// Removing the pending request at `i` keeps the invariant.
pub proof fn lemma_remove_pending(v: SchedView, i: int, lim: Limits, w: SchedView)
    requires
        sched_inv(v, lim),
        0 <= i < v.pending.len(),
        w.pending == v.pending.remove(i),
        w.prefill == v.prefill,
        w.decode == v.decode,
        w.tables == v.tables,
        w.next_seq_id == v.next_seq_id,
    ensures
        sched_inv(w, lim),
{
    let q = pending_ids(v.pending);
    assert(pending_ids(w.pending) =~= q.remove(i));
    assert(all_ids(w) =~= all_ids(v).remove(i));
    assert forall|x: int, y: int| 0 <= x < all_ids(w).len() && 0 <= y < all_ids(w).len() && x != y implies all_ids(w)[x] != all_ids(w)[y] by {
        let a = all_ids(v);
        let xx = if x < i { x } else { x + 1 };
        let yy = if y < i { y } else { y + 1 };
        assert(all_ids(w)[x] == a[xx]);
        assert(all_ids(w)[y] == a[yy]);
    }
    assert forall|k: int| 0 <= k < all_ids(w).len() implies #[trigger] all_ids(w)[k] < w.next_seq_id by {
        if k < i {
            assert(all_ids(w)[k] == all_ids(v)[k]);
        } else {
            assert(all_ids(w)[k] == all_ids(v)[k + 1]);
        }
    }
    assert(active_ids(w) =~= active_ids(v));
}

impl Scheduler {
    /// Fails sequence `seq_id` with `reason`, wherever it is; an unknown id
    /// changes nothing.
    fn fail_sequence(&mut self, seq_id: SeqId, reason: String)
        requires
            old(self).wf(),
        ensures
            final(self).wf(),
            final(self).limits() == old(self).limits(),
            final(self)@ == fail_view(old(self)@, seq_id, reason@),
    {
        proof {
            self.lemma_ids_distinct();
        }
        let ghost v = self@;
        match find_sequence(&self.decode_sequences, seq_id) {
            Some(i) => {
                proof {
                    lemma_position(seq_ids(v.decode), i as int);
                }
                let mut sequence = self.decode_sequences.remove(i);
                sequence.request.state = RequestState::Failed(reason);
                self.kv_cache.free_sequence(seq_id);
                self.completed_requests.push(sequence.request);
                proof {
                    assert(seq_views(self.decode_sequences@) =~= v.decode.remove(i as int));
                    assert(request_views(self.completed_requests@) =~= v.completed.push(
                        with_state(v.decode[i as int].request, StateView::Failed(reason@)),
                    ));
                    lemma_remove_decode(v, i as int, self.limits(), Seq::empty(), 0, self@);
                }
                return;
            },
            None => {},
        }
        match find_sequence(&self.prefill_sequences, seq_id) {
            Some(i) => {
                proof {
                    lemma_position(seq_ids(v.prefill), i as int);
                }
                let mut sequence = self.prefill_sequences.remove(i);
                sequence.request.state = RequestState::Failed(reason);
                self.kv_cache.free_sequence(seq_id);
                self.completed_requests.push(sequence.request);
                proof {
                    assert(seq_views(self.prefill_sequences@) =~= v.prefill.remove(i as int));
                    assert(request_views(self.completed_requests@) =~= v.completed.push(
                        with_state(v.prefill[i as int].request, StateView::Failed(reason@)),
                    ));
                    lemma_remove_prefill(v, i as int, self.limits(), Seq::empty(), 0, self@);
                }
                return;
            },
            None => {},
        }
        let mut i: usize = 0;
        while i < self.pending_queue.len()
            invariant
                self.wf(),
                self@ == v,
                v == old(self)@,
                self.limits() == old(self).limits(),
                pending_ids(v.pending).no_duplicates(),
                !seq_ids(v.decode).contains(seq_id),
                !seq_ids(v.prefill).contains(seq_id),
                i <= v.pending.len(),
                forall|k: int| 0 <= k < i ==> v.pending[k].0 != seq_id,
            decreases v.pending.len() - i,
        {
            if self.pending_queue[i].seq_id == seq_id {
                proof {
                    assert(pending_ids(v.pending)[i as int] == seq_id);
                    lemma_position(pending_ids(v.pending), i as int);
                }
                let removed = self.pending_queue.remove(i);
                match removed {
                    Some(mut pending) => {
                        pending.request.state = RequestState::Failed(reason);
                        self.completed_requests.push(pending.request);
                        proof {
                            assert(pending_views(self.pending_queue@) =~= v.pending.remove(i as int));
                            assert(request_views(self.completed_requests@) =~= v.completed.push(
                                with_state(v.pending[i as int].1, StateView::Failed(reason@)),
                            ));
                            lemma_remove_pending(v, i as int, self.limits(), self@);
                            let w = fail_view(v, seq_id, reason@);
                            assert(position(seq_ids(v.decode), seq_id) == -1);
                            assert(position(seq_ids(v.prefill), seq_id) == -1);
                            assert(w.pending == self@.pending);
                            assert(w.completed == self@.completed);
                            assert(w == self@);
                        }
                    },
                    None => {},
                }
                return;
            }
            i = i + 1;
        }
        proof {
            if pending_ids(v.pending).contains(seq_id) {
                let k = choose|k: int| 0 <= k < pending_ids(v.pending).len() && pending_ids(v.pending)[k] == seq_id;
                assert(v.pending[k].0 == seq_id);
            }
        }
    }

    /// Completes active sequence `seq_id` and frees its blocks.
    fn complete_sequence(&mut self, seq_id: SeqId, Ghost(due): Ghost<Seq<SeqId>>, Ghost(n): Ghost<int>)
        requires
            old(self).kv_ok(),
            inv_during(old(self)@, old(self).limits(), due, n),
        ensures
            final(self).kv_ok(),
            inv_during(final(self)@, old(self).limits(), due, n),
            final(self).limits() == old(self).limits(),
            final(self).under_memory_pressure == old(self).under_memory_pressure,
            final(self)@ == complete_view(old(self)@, seq_id),
    {
        proof {
            lemma_ids_parts(self@);
        }
        let ghost v = self@;
        match find_sequence(&self.decode_sequences, seq_id) {
            Some(i) => {
                proof {
                    lemma_position(seq_ids(v.decode), i as int);
                }
                let mut sequence = self.decode_sequences.remove(i);
                sequence.request.state = RequestState::Completed;
                self.kv_cache.free_sequence(seq_id);
                self.completed_requests.push(sequence.request);
                proof {
                    assert(seq_views(self.decode_sequences@) =~= v.decode.remove(i as int));
                    assert(request_views(self.completed_requests@) =~= v.completed.push(
                        with_state(v.decode[i as int].request, StateView::Completed),
                    ));
                    lemma_remove_decode(v, i as int, self.limits(), due, n, self@);
                }
                return;
            },
            None => {},
        }
        match find_sequence(&self.prefill_sequences, seq_id) {
            Some(i) => {
                proof {
                    lemma_position(seq_ids(v.prefill), i as int);
                }
                let mut sequence = self.prefill_sequences.remove(i);
                sequence.request.state = RequestState::Completed;
                self.kv_cache.free_sequence(seq_id);
                self.completed_requests.push(sequence.request);
                proof {
                    assert(seq_views(self.prefill_sequences@) =~= v.prefill.remove(i as int));
                    assert(request_views(self.completed_requests@) =~= v.completed.push(
                        with_state(v.prefill[i as int].request, StateView::Completed),
                    ));
                    lemma_remove_prefill(v, i as int, self.limits(), due, n, self@);
                }
                return;
            },
            None => {},
        }
    }

    /// Fails each of the sequences, in order, with `reason`.
    pub fn fail_sequences(&mut self, seq_ids_to_fail: Vec<SeqId>, reason: &str)
        requires
            old(self).wf(),
        ensures
            final(self).wf(),
            final(self).limits() == old(self).limits(),
            final(self)@ == fail_all_view(old(self)@, seq_ids_to_fail@, reason@),
    {
        let mut k: usize = 0;
        proof {
            assert(seq_ids_to_fail@.skip(0) =~= seq_ids_to_fail@);
        }
        while k < seq_ids_to_fail.len()
            invariant
                self.wf(),
                self.limits() == old(self).limits(),
                k <= seq_ids_to_fail@.len(),
                fail_all_view(old(self)@, seq_ids_to_fail@, reason@) == fail_all_view(
                    self@,
                    seq_ids_to_fail@.skip(k as int),
                    reason@,
                ),
            decreases seq_ids_to_fail@.len() - k,
        {
            proof {
                assert(seq_ids_to_fail@.skip(k as int).drop_first() =~= seq_ids_to_fail@.skip(k + 1));
            }
            self.fail_sequence(seq_ids_to_fail[k], String::from_str(reason));
            k = k + 1;
        }
    }
}

/// Failing each id of `ids` in turn.
pub open spec fn fail_all_view(v: SchedView, ids: Seq<SeqId>, reason: Seq<char>) -> SchedView
    decreases ids.len(),
{
    if ids.len() == 0 {
        v
    } else {
        fail_all_view(fail_view(v, ids[0], reason), ids.drop_first(), reason)
    }
}


/// Index of the first sequence of `ss` that serves request `rid`, or -1.
pub open spec fn first_for_request(ss: Seq<SequenceView>, rid: u64) -> int
    decreases ss.len(),
{
    if ss.len() == 0 {
        -1
    } else if ss[0].request.id == rid {
        0
    } else {
        let r = first_for_request(ss.drop_first(), rid);
        if r < 0 {
            -1
        } else {
            r + 1
        }
    }
}

/// Index of the first pending request with id `rid`, or -1.
pub open spec fn first_pending_for_request(ps: Seq<(SeqId, RequestView)>, rid: u64) -> int
    decreases ps.len(),
{
    if ps.len() == 0 {
        -1
    } else if ps[0].1.id == rid {
        0
    } else {
        let r = first_pending_for_request(ps.drop_first(), rid);
        if r < 0 {
            -1
        } else {
            r + 1
        }
    }
}

/// The sequence that cancelling request `rid` fails: the first decode
/// sequence serving it, else the first prefill sequence, else the first
/// pending one.
pub open spec fn cancel_target(v: SchedView, rid: u64) -> Option<SeqId> {
    let d = first_for_request(v.decode, rid);
    let p = first_for_request(v.prefill, rid);
    let q = first_pending_for_request(v.pending, rid);
    if d >= 0 {
        Some(v.decode[d].seq_id)
    } else if p >= 0 {
        Some(v.prefill[p].seq_id)
    } else if q >= 0 {
        Some(v.pending[q].0)
    } else {
        None
    }
}

/// The reason given to cancelled requests.
pub open spec fn cancel_reason() -> Seq<char> {
    "request cancelled by client"@
}

proof fn lemma_first_for_request(ss: Seq<SequenceView>, rid: u64)
    ensures
        -1 <= first_for_request(ss, rid) < ss.len(),
        first_for_request(ss, rid) >= 0 ==> ss[first_for_request(ss, rid)].request.id == rid,
        first_for_request(ss, rid) >= 0 ==> forall|k: int| 0 <= k < first_for_request(ss, rid) ==> ss[k].request.id != rid,
        first_for_request(ss, rid) < 0 ==> forall|k: int| 0 <= k < ss.len() ==> ss[k].request.id != rid,
    decreases ss.len(),
{
    if ss.len() > 0 {
        lemma_first_for_request(ss.drop_first(), rid);
        assert forall|k: int| 1 <= k < ss.len() implies ss[k] == ss.drop_first()[k - 1] by {}
    }
}

proof fn lemma_first_pending_for_request(ps: Seq<(SeqId, RequestView)>, rid: u64)
    ensures
        -1 <= first_pending_for_request(ps, rid) < ps.len(),
        first_pending_for_request(ps, rid) >= 0 ==> ps[first_pending_for_request(ps, rid)].1.id == rid,
        first_pending_for_request(ps, rid) >= 0 ==> forall|k: int| 0 <= k < first_pending_for_request(ps, rid) ==> ps[k].1.id != rid,
        first_pending_for_request(ps, rid) < 0 ==> forall|k: int| 0 <= k < ps.len() ==> ps[k].1.id != rid,
    decreases ps.len(),
{
    if ps.len() > 0 {
        lemma_first_pending_for_request(ps.drop_first(), rid);
        assert forall|k: int| 1 <= k < ps.len() implies ps[k] == ps.drop_first()[k - 1] by {}
    }
}

/// The index of the first sequence serving request `rid`.
fn find_request(v: &Vec<Sequence>, rid: u64) -> (r: Option<usize>)
    ensures
        match r {
            Some(i) => i == first_for_request(seq_views(v@), rid) && i < v@.len(),
            None => first_for_request(seq_views(v@), rid) < 0,
        },
{
    proof {
        lemma_first_for_request(seq_views(v@), rid);
    }
    let mut i: usize = 0;
    while i < v.len()
        invariant
            i <= v@.len(),
            forall|k: int| 0 <= k < i ==> v@[k].request.id != rid,
            -1 <= first_for_request(seq_views(v@), rid) < v@.len(),
            first_for_request(seq_views(v@), rid) >= 0 ==> seq_views(v@)[first_for_request(seq_views(v@), rid)].request.id == rid,
            first_for_request(seq_views(v@), rid) >= 0 ==> forall|k: int| 0 <= k < first_for_request(seq_views(v@), rid) ==> seq_views(v@)[k].request.id != rid,
            first_for_request(seq_views(v@), rid) < 0 ==> forall|k: int| 0 <= k < v@.len() ==> seq_views(v@)[k].request.id != rid,
        decreases v@.len() - i,
    {
        if v[i].request.id == rid {
            proof {
                let f = first_for_request(seq_views(v@), rid);
                assert(seq_views(v@)[i as int].request.id == rid);
                if f < 0 || f > i {
                } else if f < i {
                    assert(v@[f].request.id == seq_views(v@)[f].request.id);
                }
            }
            return Some(i);
        }
        i = i + 1;
    }
    proof {
        let f = first_for_request(seq_views(v@), rid);
        if f >= 0 {
            assert(v@[f].request.id == seq_views(v@)[f].request.id);
        }
    }
    None
}

/// The index of the first pending request with id `rid`.
fn find_pending_request(q: &VecDeque<PendingRequest>, rid: u64) -> (r: Option<usize>)
    ensures
        match r {
            Some(i) => i == first_pending_for_request(pending_views(q@), rid) && i < q@.len(),
            None => first_pending_for_request(pending_views(q@), rid) < 0,
        },
{
    let ghost ps = pending_views(q@);
    proof {
        lemma_first_pending_for_request(ps, rid);
    }
    let mut i: usize = 0;
    while i < q.len()
        invariant
            ps == pending_views(q@),
            i <= q@.len(),
            forall|k: int| 0 <= k < i ==> ps[k].1.id != rid,
            -1 <= first_pending_for_request(ps, rid) < ps.len(),
            first_pending_for_request(ps, rid) >= 0 ==> ps[first_pending_for_request(ps, rid)].1.id == rid,
            first_pending_for_request(ps, rid) >= 0 ==> forall|k: int| 0 <= k < first_pending_for_request(ps, rid) ==> ps[k].1.id != rid,
            first_pending_for_request(ps, rid) < 0 ==> forall|k: int| 0 <= k < ps.len() ==> ps[k].1.id != rid,
        decreases q@.len() - i,
    {
        if q[i].request.id == rid {
            proof {
                assert(ps[i as int].1.id == rid);
            }
            return Some(i);
        }
        i = i + 1;
    }
    None
}

impl Scheduler {
    /// Fails the sequence that serves request `request_id` (see
    /// [`cancel_target`]) with `reason`; returns whether there was one.
    pub fn fail_by_request_id(&mut self, request_id: u64, reason: &str) -> (r: bool)
        requires
            old(self).wf(),
        ensures
            final(self).wf(),
            final(self).limits() == old(self).limits(),
            r == cancel_target(old(self)@, request_id) is Some,
            match cancel_target(old(self)@, request_id) {
                Some(id) => final(self)@ == fail_view(old(self)@, id, reason@),
                None => final(self)@ == old(self)@,
            },
    {
        let ghost v = self@;
        let target: Option<SeqId> = match find_request(&self.decode_sequences, request_id) {
            Some(i) => Some(self.decode_sequences[i].seq_id),
            None => match find_request(&self.prefill_sequences, request_id) {
                Some(i) => Some(self.prefill_sequences[i].seq_id),
                None => match find_pending_request(&self.pending_queue, request_id) {
                    Some(i) => Some(self.pending_queue[i].seq_id),
                    None => None,
                },
            },
        };
        proof {
            let t = cancel_target(v, request_id);
            assert(target == t);
        }
        match target {
            Some(seq_id) => {
                self.fail_sequence(seq_id, String::from_str(reason));
                true
            },
            None => false,
        }
    }

    /// Fails the sequence that serves request `request_id` (see
    /// [`cancel_target`]) with a cancellation reason; returns whether there
    /// was one.
    pub fn cancel_by_request_id(&mut self, request_id: u64) -> (r: bool)
        requires
            old(self).wf(),
        ensures
            final(self).wf(),
            final(self).limits() == old(self).limits(),
            r == cancel_target(old(self)@, request_id) is Some,
            match cancel_target(old(self)@, request_id) {
                Some(id) => final(self)@ == fail_view(old(self)@, id, cancel_reason()),
                None => final(self)@ == old(self)@,
            },
    {
        self.fail_by_request_id(request_id, "request cancelled by client")
    }

    /// Whether an execution output of `n` entries can be recorded (see
    /// [`SchedulerTrait::output_fits`]).
    pub fn accepts_output_len(&self, n: usize) -> (r: bool)
        ensures
            r == (n + self.limits().max_model_len <= u32::MAX),
    {
        n <= (u32::MAX - self.config.max_model_len) as usize
    }

    /// The configured `max_model_len`.
    pub fn max_model_len(&self) -> (r: u32)
        ensures
            r == self.limits().max_model_len,
    {
        self.config.max_model_len
    }
}


/// The effect of `add_request` on a scheduler that has room: refused under
/// memory pressure or when `max_num_seqs` sequences are active, else queued
/// with the next sequence id.
pub open spec fn add_request_result(v: SchedView, lim: Limits, request: RequestView) -> (Result<SeqId, SchedulerError>, SchedView) {
    if under_pressure(v.free.len(), lim.max_num_blocks as nat, lim.memory_threshold)
        || v.prefill.len() + v.decode.len() >= lim.max_num_seqs {
        (Err(SchedulerError::MemoryPressure), v)
    } else {
        (
            Ok(v.next_seq_id),
            SchedView {
                pending: v.pending.push((v.next_seq_id, request)),
                next_seq_id: (v.next_seq_id + 1) as u64,
                ..v
            },
        )
    }
}

impl Scheduler {
    /// Room for one more request: an unused id and room in memory.
    pub closed spec fn room(&self) -> bool {
        &&& self.next_seq_id < u64::MAX
        &&& self@.pending.len() + self@.prefill.len() + self@.decode.len() < usize::MAX
    }

    /// Whether there is room for one more request (see [`Self::room`]).
    pub fn has_room_for_request(&self) -> (r: bool)
        requires
            self.wf(),
        ensures
            r == self.room(),
    {
        let used = self.prefill_sequences.len() + self.decode_sequences.len();
        self.next_seq_id < u64::MAX && self.pending_queue.len() < usize::MAX - used
    }

    /// Fails every pending request with `reason`, front first; returns how
    /// many there were.
    pub fn fail_pending_requests(&mut self, reason: &str) -> (r: usize)
        requires
            old(self).wf(),
        ensures
            final(self).wf(),
            final(self).limits() == old(self).limits(),
            r == old(self)@.pending.len(),
            final(self)@ == (SchedView {
                pending: Seq::empty(),
                completed: old(self)@.completed + old(self)@.pending.map_values(
                    |p: (SeqId, RequestView)| with_state(p.1, StateView::Failed(reason@)),
                ),
                ..old(self)@
            }),
    {
        let ghost v = self@;
        let ghost f = |p: (SeqId, RequestView)| with_state(p.1, StateView::Failed(reason@));
        let mut count: usize = 0;
        proof {
            assert(v.pending.skip(0) =~= v.pending);
            assert(v.completed + v.pending.take(0).map_values(f) =~= v.completed);
        }
        while self.pending_queue.len() > 0
            invariant
                self.wf(),
                self.limits() == old(self).limits(),
                v == old(self)@,
                forall|p: (SeqId, RequestView)| #[trigger] f(p) == with_state(p.1, StateView::Failed(reason@)),
                count <= v.pending.len(),
                v.pending.len() <= usize::MAX,
                self@ == (SchedView {
                    pending: v.pending.skip(count as int),
                    completed: v.completed + v.pending.take(count as int).map_values(f),
                    ..v
                }),
            decreases self@.pending.len(),
        {
            let ghost before = self@;
            proof {
                assert(pending_views(self.pending_queue@).len() == self.pending_queue@.len());
                assert(count < v.pending.len());
            }
            match self.pending_queue.pop_front() {
                Some(mut pending) => {
                    let msg = String::from_str(reason);
                    pending.request.state = RequestState::Failed(msg);
                    self.completed_requests.push(pending.request);
                    proof {
                        assert(pending_views(self.pending_queue@) =~= before.pending.remove(0));
                        lemma_remove_pending(before, 0, self.limits(), self@);
                        assert(v.pending.skip(count as int).remove(0) =~= v.pending.skip(count + 1));
                        assert(before.pending[0] == v.pending[count as int]);
                        assert(pending.request@ == with_state(v.pending[count as int].1, StateView::Failed(reason@)));
                        assert(v.pending.take(count + 1).map_values(f) =~= v.pending.take(count as int).map_values(f).push(f(v.pending[count as int])));
                        assert(request_views(self.completed_requests@) =~= before.completed.push(pending.request@));
                        assert(self@.completed =~= v.completed + v.pending.take(count + 1).map_values(f));
                    }
                    count = count + 1;
                },
                None => {},
            }
        }
        proof {
            assert(v.pending.skip(count as int).len() == 0);
            assert(v.pending.take(count as int) =~= v.pending);
            assert(self@.pending =~= Seq::<(SeqId, RequestView)>::empty());
            assert(v.pending.map_values(f) =~= v.pending.map_values(
                |p: (SeqId, RequestView)| with_state(p.1, StateView::Failed(reason@)),
            ));
        }
        count
    }
}


/// The running state of one scheduling step.
pub struct Phase {
    /// The KV free list.
    pub free: Seq<BlockIdx>,
    /// The KV page tables.
    pub tables: Map<SeqId, Seq<BlockIdx>>,
    /// Finished requests.
    pub completed: Seq<RequestView>,
    /// Tokens scheduled so far.
    pub total: int,
    /// Sequences scheduled so far.
    pub num: int,
    /// Sequences scheduled by the current phase.
    pub out: Seq<SequenceView>,
    /// Sequences of the current phase that stay in its queue.
    pub kept: Seq<SequenceView>,
    /// Pending requests not yet looked at.
    pub queue: Seq<(SeqId, RequestView)>,
}

/// Reason given to a decode sequence whose next block cannot be allocated.
pub open spec fn kv_fail_reason() -> Seq<char> {
    "Failed to allocate KV block: "@ + MemoryError::OutOfBlocks.spec_message()
}

/// Reason given to a prompt longer than a batch.
pub open spec fn too_many_tokens_reason(tokens: u32, max: u32) -> Seq<char> {
    "Input tokens "@ + decimal(tokens as nat) + " exceed max_total_tokens "@ + decimal(max as nat)
}

/// Reason given to a prompt that needs more blocks than the pool has.
pub open spec fn too_many_blocks_reason(blocks: u32, max: u32) -> Seq<char> {
    "Required blocks "@ + decimal(blocks as nat) + " exceed max_num_blocks "@ + decimal(max as nat)
}

/// The most blocks a prompt may need and still start: `max_num_blocks`
/// scaled by the memory threshold (in millionths), rounded down.
pub open spec fn watermark_blocks(max: u32, threshold: i64) -> int {
    if threshold <= 0 {
        0
    } else if threshold >= 1_000_000 {
        max as int
    } else {
        (max as int * threshold as int) / 1_000_000
    }
}

/// Reason given to a prompt that needs more blocks than the memory
/// watermark leaves: it could never start.
pub open spec fn over_watermark_reason(blocks: u32, watermark: u64) -> Seq<char> {
    "Required blocks "@ + decimal(blocks as nat) + " exceed memory watermark blocks "@ + decimal(watermark as nat)
}

/// The memory watermark in blocks (see [`watermark_blocks`]).
fn watermark_block_count(max: u32, threshold: i64) -> (r: u64)
    ensures
        r == watermark_blocks(max, threshold),
{
    if threshold <= 0 {
        0
    } else if threshold >= 1_000_000 {
        max as u64
    } else {
        let m = max as u64;
        let t = threshold as u64;
        assert(m * t <= 0xffff_ffff * 1_000_000) by (nonlinear_arith)
            requires
                m <= 0xffff_ffff,
                t < 1_000_000,
        ;
        (m * t) / 1_000_000
    }
}

/// A sequence with one more block, mapped to `b`.
pub open spec fn grow(s: SequenceView, b: BlockIdx) -> SequenceView {
    SequenceView {
        blocks: s.blocks.push(
            LogicalBlock {
                block_idx: s.blocks.len() as u32,
                physical_block: Some(PhysicalBlockRef { block_idx: b }),
            },
        ),
        ..s
    }
}

/// Logical blocks mapped, in order, to `bs`.
pub open spec fn blocks_of(bs: Seq<BlockIdx>) -> Seq<LogicalBlock> {
    Seq::new(
        bs.len(),
        |i: int| LogicalBlock { block_idx: i as u32, physical_block: Some(PhysicalBlockRef { block_idx: bs[i] }) },
    )
}

/// A sequence whose prefill starts with blocks `bs`.
pub open spec fn started(id: SeqId, r: RequestView, bs: Seq<BlockIdx>) -> SequenceView {
    SequenceView {
        seq_id: id,
        request: with_state(r, StateView::Prefill),
        blocks: blocks_of(bs),
        num_computed_tokens: 0,
        num_generated_tokens: 0,
    }
}

/// An active sequence fails: its blocks return to the pool.
pub open spec fn fail_active(p: Phase, s: SequenceView, reason: Seq<char>) -> Phase {
    Phase {
        free: p.free + p.tables[s.seq_id],
        tables: p.tables.remove(s.seq_id),
        completed: p.completed.push(with_state(s.request, StateView::Failed(reason))),
        ..p
    }
}

/// The decode phase over `ds`: while the batch has room for a sequence and a
/// token, each sequence that needs a new block for its next token receives
/// the front free block or, when there is none, fails; each that did not
/// fail is scheduled.
pub open spec fn decode_fold(p: Phase, ds: Seq<SequenceView>, lim: Limits) -> Phase
    decreases ds.len(),
{
    if ds.len() == 0 {
        p
    } else if p.num >= lim.max_batch_size || p.total + 1 > lim.max_total_tokens {
        Phase { kept: p.kept + ds, ..p }
    } else {
        let d = ds[0];
        let need = ceil_div(d.context_len() + 1, lim.block_size as int);
        let next = if need > d.blocks.len() {
            if p.free.len() == 0 {
                fail_active(p, d, kv_fail_reason())
            } else {
                let g = grow(d, p.free[0]);
                Phase {
                    free: p.free.drop_first(),
                    tables: p.tables.insert(d.seq_id, p.tables[d.seq_id].push(p.free[0])),
                    total: p.total + 1,
                    num: p.num + 1,
                    out: p.out.push(g),
                    kept: p.kept.push(g),
                    ..p
                }
            }
        } else {
            Phase { total: p.total + 1, num: p.num + 1, out: p.out.push(d), kept: p.kept.push(d), ..p }
        };
        decode_fold(next, ds.drop_first(), lim)
    }
}

/// The prefill phase over `ps`: while the batch has room for a sequence, a
/// prompt longer than a batch, or needing more blocks than the pool has,
/// fails; otherwise it is scheduled if its tokens fit, and the phase ends
/// when they do not.
pub open spec fn prefill_fold(p: Phase, ps: Seq<SequenceView>, lim: Limits) -> Phase
    decreases ps.len(),
{
    if ps.len() == 0 {
        p
    } else if p.num >= lim.max_batch_size {
        Phase { kept: p.kept + ps, ..p }
    } else {
        let s = ps[0];
        let t = s.request.input.len() as u32;
        let need = ceil_div(t as int, lim.block_size as int);
        if t > lim.max_total_tokens {
            prefill_fold(fail_active(p, s, too_many_tokens_reason(t, lim.max_total_tokens)), ps.drop_first(), lim)
        } else if need > lim.max_num_blocks {
            prefill_fold(fail_active(p, s, too_many_blocks_reason(need as u32, lim.max_num_blocks)), ps.drop_first(), lim)
        } else if p.total + t > lim.max_total_tokens {
            Phase { kept: p.kept + ps, ..p }
        } else {
            prefill_fold(
                Phase { total: p.total + t, num: p.num + 1, out: p.out.push(s), kept: p.kept.push(s), ..p },
                ps.drop_first(),
                lim,
            )
        }
    }
}

/// The admission phase over the queue: while the batch has room for a
/// sequence, a request whose prompt is longer than a batch, or needs more
/// blocks than the pool has or than the memory watermark leaves, fails;
/// otherwise it starts its prefill with the
/// front free blocks, and admission stops at the first request whose tokens
/// or blocks do not fit, or whose blocks would take the pool over the
/// watermark.
pub open spec fn pending_fold(p: Phase, lim: Limits) -> Phase
    decreases p.queue.len(),
{
    if p.queue.len() == 0 {
        p
    } else if p.num >= lim.max_batch_size {
        p
    } else {
        let id = p.queue[0].0;
        let r = p.queue[0].1;
        let t = r.input.len() as u32;
        let rest = p.queue.drop_first();
        let need = ceil_div(t as int, lim.block_size as int);
        if t > lim.max_total_tokens {
            pending_fold(
                Phase {
                    queue: rest,
                    completed: p.completed.push(with_state(r, StateView::Failed(too_many_tokens_reason(t, lim.max_total_tokens)))),
                    ..p
                },
                lim,
            )
        } else if need > lim.max_num_blocks {
            pending_fold(
                Phase {
                    queue: rest,
                    completed: p.completed.push(with_state(r, StateView::Failed(too_many_blocks_reason(need as u32, lim.max_num_blocks)))),
                    ..p
                },
                lim,
            )
        } else if need > watermark_blocks(lim.max_num_blocks, lim.memory_threshold) {
            pending_fold(
                Phase {
                    queue: rest,
                    completed: p.completed.push(
                        with_state(
                            r,
                            StateView::Failed(
                                over_watermark_reason(
                                    need as u32,
                                    watermark_blocks(lim.max_num_blocks, lim.memory_threshold) as u64,
                                ),
                            ),
                        ),
                    ),
                    ..p
                },
                lim,
            )
        } else if p.total + t > lim.max_total_tokens || p.free.len() < need || lim.max_num_blocks - p.free.len()
            + need > watermark_blocks(lim.max_num_blocks, lim.memory_threshold) {
            p
        } else {
            let st = started(id, r, p.free.take(need));
            pending_fold(
                Phase {
                    queue: rest,
                    free: p.free.skip(need),
                    tables: p.tables.insert(id, p.free.take(need)),
                    total: p.total + t,
                    num: p.num + 1,
                    out: p.out.push(st),
                    kept: p.kept.push(st),
                    ..p
                },
                lim,
            )
        }
    }
}

/// The phase state a step starts from.
pub open spec fn start_phase(v: SchedView) -> Phase {
    Phase {
        free: v.free,
        tables: v.tables,
        completed: v.completed,
        total: 0,
        num: 0,
        out: Seq::empty(),
        kept: Seq::empty(),
        queue: Seq::empty(),
    }
}

/// The three phases of one step.
pub open spec fn schedule_phases(v: SchedView, lim: Limits) -> (Phase, Phase, Phase) {
    let p1 = decode_fold(start_phase(v), v.decode, lim);
    let p2 = prefill_fold(Phase { out: Seq::empty(), kept: Seq::empty(), ..p1 }, v.prefill, lim);
    let p3s = Phase { out: Seq::empty(), kept: Seq::empty(), queue: v.pending, ..p2 };
    let p3 = if under_pressure(v.free.len(), lim.max_num_blocks as nat, lim.memory_threshold) {
        p3s
    } else {
        pending_fold(p3s, lim)
    };
    (p1, p2, p3)
}

/// The scheduler after one step.
pub open spec fn schedule_view(v: SchedView, lim: Limits) -> SchedView {
    let (p1, p2, p3) = schedule_phases(v, lim);
    SchedView {
        pending: p3.queue,
        prefill: p2.kept + p3.kept,
        decode: p1.kept,
        completed: p3.completed,
        free: p3.free,
        tables: p3.tables,
        next_seq_id: v.next_seq_id,
    }
}

/// Growing the decode sequence at `k` by block `b` keeps the invariant.
pub proof fn lemma_grow_decode(v: SchedView, k: int, b: BlockIdx, lim: Limits, w: SchedView)
    requires
        sched_inv(v, lim),
        0 <= k < v.decode.len(),
        w.pending == v.pending,
        w.prefill == v.prefill,
        w.decode == v.decode.update(k, grow(v.decode[k], b)),
        w.tables == v.tables.insert(v.decode[k].seq_id, v.tables[v.decode[k].seq_id].push(b)),
        w.next_seq_id == v.next_seq_id,
    ensures
        sched_inv(w, lim),
{
    let id = v.decode[k].seq_id;
    assert(seq_ids(w.decode) =~= seq_ids(v.decode));
    assert(all_ids(w) =~= all_ids(v));
    assert(active_ids(w) =~= active_ids(v));
    assert(seq_ids(v.decode)[k] == id);
    assert(active_ids(v).contains(id));
    assert(w.tables.dom() =~= active_ids(w));
    lemma_ids_parts(v);
    assert forall|j: int| 0 <= j < w.prefill.len() implies blocks_match(#[trigger] w.prefill[j], w.tables)
        && prefill_ok(w.prefill[j]) by {
        assert(blocks_match(v.prefill[j], v.tables));
        assert(seq_ids(v.prefill)[j] == v.prefill[j].seq_id);
        assert(seq_ids(v.prefill).contains(v.prefill[j].seq_id));
        assert(v.prefill[j].seq_id != id);
    }
    assert forall|j: int| 0 <= j < w.decode.len() implies blocks_match(#[trigger] w.decode[j], w.tables)
        && decode_during(w.decode[j], lim, Seq::empty(), 0) by {
        assert(blocks_match(v.decode[j], v.tables));
        if j == k {
            let g = grow(v.decode[k], b);
            assert(physical_indices(g.blocks) =~= physical_indices(v.decode[k].blocks).push(b));
        } else {
            assert(seq_ids(v.decode)[j] != seq_ids(v.decode)[k]);
        }
    }
}

/// Moving the front pending request into prefill, with blocks `bs` that no
/// sequence holds, keeps the invariant.
pub proof fn lemma_start_prefill(v: SchedView, bs: Seq<BlockIdx>, lim: Limits, w: SchedView)
    requires
        sched_inv(v, lim),
        v.pending.len() > 0,
        w.pending == v.pending.drop_first(),
        w.prefill == v.prefill.push(started(v.pending[0].0, v.pending[0].1, bs)),
        w.decode == v.decode,
        w.tables == v.tables.insert(v.pending[0].0, bs),
        w.next_seq_id == v.next_seq_id,
    ensures
        sched_inv(w, lim),
{
    let id = v.pending[0].0;
    lemma_ids_parts(v);
    let q = pending_ids(v.pending);
    let p = seq_ids(v.prefill);
    let d = seq_ids(v.decode);
    assert(q[0] == id);
    assert(pending_ids(w.pending) =~= q.drop_first());
    assert(seq_ids(w.prefill) =~= p.push(id));
    let a = all_ids(v);
    let aw = all_ids(w);
    // aw is a with its first element moved to just before the decode ids.
    assert forall|x: int| 0 <= x < aw.len() implies #[trigger] aw[x] == (if x < q.len() - 1 + p.len() {
        a[x + 1]
    } else if x == q.len() - 1 + p.len() {
        a[0]
    } else {
        a[x]
    }) by {}
    assert forall|x: int, y: int| 0 <= x < aw.len() && 0 <= y < aw.len() && x != y implies aw[x] != aw[y] by {
        let n = q.len() - 1 + p.len();
        let xx = if x < n { x + 1 } else if x == n { 0 } else { x };
        let yy = if y < n { y + 1 } else if y == n { 0 } else { y };
        assert(aw[x] == a[xx]);
        assert(aw[y] == a[yy]);
    }
    assert forall|k: int| 0 <= k < aw.len() implies #[trigger] aw[k] < w.next_seq_id by {
        let n = q.len() - 1 + p.len();
        let kk = if k < n { k + 1 } else if k == n { 0 } else { k };
        assert(aw[k] == a[kk]);
    }
    assert(!active_ids(v).contains(id)) by {
        assert(q.contains(id));
        if (p + d).contains(id) {
            let x = choose|x: int| 0 <= x < (p + d).len() && (p + d)[x] == id;
            if x < p.len() {
                assert(p[x] == id);
                assert(p.contains(id));
            } else {
                assert(d[x - p.len()] == id);
                assert(d.contains(id));
            }
        }
    }
    assert forall|a2: SeqId| #[trigger] active_ids(w).contains(a2) <==> active_ids(v).contains(a2) || a2 == id by {
        let pd = p + d;
        let pw = seq_ids(w.prefill) + seq_ids(w.decode);
        assert(pw =~= pd.insert(p.len() as int, id));
        if pw.contains(a2) {
            let x = choose|x: int| 0 <= x < pw.len() && pw[x] == a2;
            if x < p.len() {
                assert(pd[x] == a2);
            } else if x > p.len() {
                assert(pd[x - 1] == a2);
            }
        }
        if pd.contains(a2) {
            let x = choose|x: int| 0 <= x < pd.len() && pd[x] == a2;
            if x < p.len() {
                assert(pw[x] == a2);
            } else {
                assert(pw[x + 1] == a2);
            }
        }
        if a2 == id {
            assert(pw[p.len() as int] == id);
        }
    }
    assert(w.tables.dom() =~= active_ids(w));
    assert forall|j: int| 0 <= j < w.prefill.len() implies blocks_match(#[trigger] w.prefill[j], w.tables)
        && prefill_ok(w.prefill[j]) by {
        if j < v.prefill.len() {
            assert(blocks_match(v.prefill[j], v.tables));
            assert(p[j] == v.prefill[j].seq_id);
        } else {
            let st = started(id, v.pending[0].1, bs);
            assert(physical_indices(st.blocks) =~= bs);
        }
    }
    assert forall|j: int| 0 <= j < w.decode.len() implies blocks_match(#[trigger] w.decode[j], w.tables)
        && decode_during(w.decode[j], lim, Seq::empty(), 0) by {
        assert(blocks_match(v.decode[j], v.tables));
        assert(d[j] == v.decode[j].seq_id);
    }
}


/// Logical blocks mapped, in order, to the blocks of `bt`.
fn blocks_from_table(bt: &Vec<BlockIdx>) -> (r: Vec<LogicalBlock>)
    ensures
        r@ == blocks_of(bt@),
{
    let mut out: Vec<LogicalBlock> = Vec::new();
    let mut i: usize = 0;
    while i < bt.len()
        invariant
            i <= bt@.len(),
            out@ == blocks_of(bt@.take(i as int)),
        decreases bt@.len() - i,
    {
        out.push(LogicalBlock::with_physical(i as u32, PhysicalBlockRef { block_idx: bt[i] }));
        proof {
            assert(blocks_of(bt@.take(i + 1)) =~= blocks_of(bt@.take(i as int)).push(
                LogicalBlock { block_idx: i as u32, physical_block: Some(PhysicalBlockRef { block_idx: bt@[i as int] }) },
            ));
        }
        i = i + 1;
    }
    proof {
        assert(bt@.take(bt@.len() as int) =~= bt@);
    }
    out
}

impl Scheduler {
    /// The decode phase of a step (see [`decode_fold`]).
    fn schedule_decode(&mut self, out: &mut Vec<Arc<Sequence>>, total_tokens: &mut u32, num_sequences: &mut u32)
        requires
            old(self).wf(),
            old(out)@.len() == 0,
            *old(total_tokens) == 0,
            *old(num_sequences) == 0,
        ensures
            ({
                let v = old(self)@;
                let lim = old(self).limits();
                let p1 = decode_fold(start_phase(v), v.decode, lim);
                &&& final(self).wf()
                &&& final(self).limits() == lim
                &&& final(self).under_memory_pressure == old(self).under_memory_pressure
                &&& final(self)@ == (SchedView {
                    decode: p1.kept,
                    completed: p1.completed,
                    free: p1.free,
                    tables: p1.tables,
                    ..v
                })
                &&& arc_views(final(out)@) == p1.out
                &&& *final(total_tokens) == p1.total
                &&& *final(num_sequences) == p1.num
                &&& p1.num == p1.out.len()
                &&& p1.total <= lim.max_total_tokens
                &&& p1.num <= lim.max_batch_size
            }),
    {
        let ghost v = self@;
        let ghost lim = self.limits();
        let ghost p1 = decode_fold(start_phase(v), v.decode, lim);
        let mut rem: Vec<Sequence> = Vec::new();
        std::mem::swap(&mut rem, &mut self.decode_sequences);
        let mut stop = false;
        proof {
            assert(seq_views(self.decode_sequences@) =~= Seq::<SequenceView>::empty());
            assert(seq_views(self.decode_sequences@) + seq_views(rem@) =~= v.decode);
            assert(arc_views(out@) =~= Seq::<SequenceView>::empty());
            assert((Phase {
                free: v.free,
                tables: v.tables,
                completed: v.completed,
                total: 0,
                num: 0,
                out: Seq::empty(),
                kept: Seq::empty(),
                queue: Seq::empty(),
            }) == start_phase(v));
        }
        while !stop && rem.len() > 0
            invariant
                self.kv_cache.cache_inv(),
                self.kv_cache.pool().spec_block_size() == self.config.block_size,
                self.kv_cache.pool().total() == self.config.max_num_blocks,
                self.limits() == lim,
                lim == old(self).limits(),
                v == old(self)@,
                self.under_memory_pressure == old(self).under_memory_pressure,
                self@.pending == v.pending,
                self@.prefill == v.prefill,
                self@.next_seq_id == v.next_seq_id,
                sched_inv(SchedView { decode: self@.decode + seq_views(rem@), ..self@ }, lim),
                p1 == decode_fold(start_phase(v), v.decode, lim),
                decode_fold(
                    Phase {
                        free: self@.free,
                        tables: self@.tables,
                        completed: self@.completed,
                        total: *total_tokens as int,
                        num: *num_sequences as int,
                        out: arc_views(out@),
                        kept: self@.decode,
                        queue: Seq::empty(),
                    },
                    seq_views(rem@),
                    lim,
                ) == p1,
                *num_sequences as int == out@.len(),
                *total_tokens <= lim.max_total_tokens,
                *num_sequences <= lim.max_batch_size,
                stop ==> *num_sequences >= lim.max_batch_size || *total_tokens + 1 > lim.max_total_tokens,
            decreases rem@.len() + (if stop { 0int } else { 1int }),
        {
            if *num_sequences >= self.config.max_batch_size
                || *total_tokens as u64 + 1 > self.config.max_total_tokens as u64 {
                stop = true;
            } else {
                let ghost before = self@;
                let ghost mid = SchedView { decode: self@.decode + seq_views(rem@), ..self@ };
                let ghost k = self@.decode.len() as int;
                let ghost rem_before = seq_views(rem@);
                let ghost out_before = arc_views(out@);
                let mut seq = rem.remove(0);
                let ghost d = seq@;
                let ghost rest = seq_views(rem@);
                proof {
                    assert(rest =~= rem_before.drop_first());
                    assert(mid.decode[k] == d);
                    assert(blocks_match(d, mid.tables) && decode_ok(d, lim));
                    self.kv_cache.lemma_wf_facts();
                    assert(self.kv_cache.tables().contains_key(d.seq_id));
                    assert(physical_indices(d.blocks).len() == d.blocks.len());
                }
                let current_tokens = seq.context_len();
                let current_blocks = seq.logical_blocks.len() as u32;
                let blocks_needed = self.config.blocks_for_tokens(current_tokens + 1);
                if blocks_needed > current_blocks {
                    match self.kv_cache.allocate_block(seq.seq_id) {
                        Ok(physical_ref) => {
                            let logical_idx = seq.logical_blocks.len() as u32;
                            seq.logical_blocks.push(LogicalBlock::with_physical(logical_idx, physical_ref));
                            out.push(Arc::new(seq.duplicate()));
                            self.decode_sequences.push(seq);
                            *total_tokens = *total_tokens + 1;
                            *num_sequences = *num_sequences + 1;
                            proof {
                                let g = grow(d, physical_ref.block_idx);
                                assert(self.decode_sequences@.last()@ == g);
                                assert(self@.decode =~= before.decode.push(g));
                                assert(arc_views(out@) =~= out_before.push(g)) by {
                                    assert(arc_views(out@).last() == g);
                                }
                                let nm = SchedView { decode: self@.decode + seq_views(rem@), ..self@ };
                                assert(nm.decode =~= mid.decode.update(k, g));
                                lemma_grow_decode(mid, k, physical_ref.block_idx, lim, nm);
                            }
                        },
                        Err(err) => {
                            let msg = err.message();
                            let reason = concat_text("Failed to allocate KV block: ", msg.as_str());
                            seq.request.state = RequestState::Failed(reason);
                            let id = seq.seq_id;
                            self.kv_cache.free_sequence(id);
                            self.completed_requests.push(seq.request);
                            proof {
                                assert(self@.completed =~= before.completed.push(with_state(d.request, StateView::Failed(kv_fail_reason()))));
                                let nm = SchedView { decode: self@.decode + seq_views(rem@), ..self@ };
                                assert(nm.decode =~= mid.decode.remove(k));
                                lemma_remove_decode(mid, k, lim, Seq::empty(), 0, nm);
                            }
                        },
                    }
                } else {
                    out.push(Arc::new(seq.duplicate()));
                    self.decode_sequences.push(seq);
                    *total_tokens = *total_tokens + 1;
                    *num_sequences = *num_sequences + 1;
                    proof {
                        assert(self@.decode =~= before.decode.push(d));
                        assert(arc_views(out@) =~= out_before.push(d)) by {
                            assert(arc_views(out@).last() == d);
                        }
                        let nm = SchedView { decode: self@.decode + seq_views(rem@), ..self@ };
                        assert(nm.decode =~= mid.decode);
                        assert(nm == mid);
                    }
                }
            }
        }
        let ghost kept = self@.decode;
        let ghost rest = seq_views(rem@);
        self.decode_sequences.append(&mut rem);
        proof {
            assert(self@.decode =~= kept + rest);
            if rest.len() == 0 {
                assert(kept + rest =~= kept);
            }
        }
    }
}


impl Scheduler {
    /// The prefill phase of a step (see [`prefill_fold`]), continuing from
    /// `total_tokens` and `num_sequences`.
    fn schedule_prefill(&mut self, out: &mut Vec<Arc<Sequence>>, total_tokens: &mut u32, num_sequences: &mut u32)
        requires
            old(self).wf(),
            old(out)@.len() == 0,
            *old(total_tokens) <= old(self).limits().max_total_tokens,
            *old(num_sequences) <= old(self).limits().max_batch_size,
        ensures
            ({
                let v = old(self)@;
                let lim = old(self).limits();
                let p2 = prefill_fold(
                    Phase {
                        free: v.free,
                        tables: v.tables,
                        completed: v.completed,
                        total: *old(total_tokens) as int,
                        num: *old(num_sequences) as int,
                        out: Seq::empty(),
                        kept: Seq::empty(),
                        queue: Seq::empty(),
                    },
                    v.prefill,
                    lim,
                );
                &&& final(self).wf()
                &&& final(self).limits() == lim
                &&& final(self).under_memory_pressure == old(self).under_memory_pressure
                &&& final(self)@ == (SchedView {
                    prefill: p2.kept,
                    completed: p2.completed,
                    free: p2.free,
                    tables: p2.tables,
                    ..v
                })
                &&& arc_views(final(out)@) == p2.out
                &&& *final(total_tokens) == p2.total
                &&& *final(num_sequences) == p2.num
                &&& p2.num == *old(num_sequences) + p2.out.len()
                &&& p2.total <= lim.max_total_tokens
                &&& p2.num <= lim.max_batch_size
                &&& p2.queue == Seq::<(SeqId, RequestView)>::empty()
            }),
    {
        let ghost v = self@;
        let ghost lim = self.limits();
        let ghost p2 = prefill_fold(
            Phase {
                free: v.free,
                tables: v.tables,
                completed: v.completed,
                total: *total_tokens as int,
                num: *num_sequences as int,
                out: Seq::empty(),
                kept: Seq::empty(),
                queue: Seq::empty(),
            },
            v.prefill,
            lim,
        );
        let ghost num0 = *num_sequences as int;
        let mut rem: Vec<Sequence> = Vec::new();
        std::mem::swap(&mut rem, &mut self.prefill_sequences);
        let mut stop = false;
        proof {
            assert(seq_views(self.prefill_sequences@) =~= Seq::<SequenceView>::empty());
            assert(seq_views(self.prefill_sequences@) + seq_views(rem@) =~= v.prefill);
            assert(arc_views(out@) =~= Seq::<SequenceView>::empty());
        }
        while !stop && rem.len() > 0
            invariant
                self.kv_cache.cache_inv(),
                self.kv_cache.pool().spec_block_size() == self.config.block_size,
                self.kv_cache.pool().total() == self.config.max_num_blocks,
                self.limits() == lim,
                lim == old(self).limits(),
                v == old(self)@,
                self.under_memory_pressure == old(self).under_memory_pressure,
                self@.pending == v.pending,
                self@.decode == v.decode,
                self@.next_seq_id == v.next_seq_id,
                sched_inv(SchedView { prefill: self@.prefill + seq_views(rem@), ..self@ }, lim),
                prefill_fold(
                    Phase {
                        free: self@.free,
                        tables: self@.tables,
                        completed: self@.completed,
                        total: *total_tokens as int,
                        num: *num_sequences as int,
                        out: arc_views(out@),
                        kept: self@.prefill,
                        queue: Seq::empty(),
                    },
                    seq_views(rem@),
                    lim,
                ) == p2,
                *num_sequences as int == num0 + out@.len(),
                *total_tokens <= lim.max_total_tokens,
                *num_sequences <= lim.max_batch_size,
                stop ==> *num_sequences >= lim.max_batch_size || (seq_views(rem@).len() > 0 && {
                    let t = seq_views(rem@)[0].request.input.len() as u32;
                    &&& t <= lim.max_total_tokens
                    &&& ceil_div(t as int, lim.block_size as int) <= lim.max_num_blocks
                    &&& *total_tokens + t > lim.max_total_tokens
                }),
            decreases rem@.len() + (if stop { 0int } else { 1int }),
        {
            if *num_sequences >= self.config.max_batch_size {
                stop = true;
            } else {
                let ghost before = self@;
                let ghost mid = SchedView { prefill: self@.prefill + seq_views(rem@), ..self@ };
                let ghost k = self@.prefill.len() as int;
                let ghost rem_before = seq_views(rem@);
                let ghost out_before = arc_views(out@);
                proof {
                    assert(mid.prefill[k] == rem_before[0]);
                }
                let prefill_tokens = rem[0].request.input_tokens.len() as u32;
                let blocks_needed = self.config.blocks_for_tokens(prefill_tokens);
                if prefill_tokens > self.config.max_total_tokens || blocks_needed > self.config.max_num_blocks {
                    let mut seq = rem.remove(0);
                    let ghost d = seq@;
                    let reason = if prefill_tokens > self.config.max_total_tokens {
                        text_with_two_numbers(
                            "Input tokens ",
                            prefill_tokens as u64,
                            " exceed max_total_tokens ",
                            self.config.max_total_tokens as u64,
                        )
                    } else {
                        text_with_two_numbers(
                            "Required blocks ",
                            blocks_needed as u64,
                            " exceed max_num_blocks ",
                            self.config.max_num_blocks as u64,
                        )
                    };
                    let ghost reason_v = reason@;
                    proof {
                        reveal_strlit("Input tokens ");
                        reveal_strlit(" exceed max_total_tokens ");
                        reveal_strlit("Required blocks ");
                        reveal_strlit(" exceed max_num_blocks ");
                    }
                    seq.request.state = RequestState::Failed(reason);
                    let id = seq.seq_id;
                    self.kv_cache.free_sequence(id);
                    self.completed_requests.push(seq.request);
                    proof {
                        assert(d == rem_before[0]);
                        assert(seq_views(rem@) =~= rem_before.drop_first());
                        assert(blocks_match(d, mid.tables));
                        let nm = SchedView { prefill: self@.prefill + seq_views(rem@), ..self@ };
                        assert(nm.prefill =~= mid.prefill.remove(k));
                        lemma_remove_prefill(mid, k, lim, Seq::empty(), 0, nm);
                        let t = d.request.input.len() as u32;
                        let need = ceil_div(t as int, lim.block_size as int);
                        assert(t == prefill_tokens);
                        assert(need == blocks_needed);
                        let reason_s = if t > lim.max_total_tokens {
                            too_many_tokens_reason(t, lim.max_total_tokens)
                        } else {
                            too_many_blocks_reason(need as u32, lim.max_num_blocks)
                        };
                        assert(reason_v == reason_s);
                        let cur = Phase {
                            free: before.free,
                            tables: before.tables,
                            completed: before.completed,
                            total: *total_tokens as int,
                            num: *num_sequences as int,
                            out: out_before,
                            kept: before.prefill,
                            queue: Seq::empty(),
                        };
                        let next = fail_active(cur, d, reason_s);
                        assert(mid.tables.contains_key(d.seq_id));
                        assert(self@.free == next.free);
                        assert(self@.tables == next.tables);
                        assert(self@.completed =~= next.completed);
                        assert(prefill_fold(cur, rem_before, lim) == prefill_fold(next, rem_before.drop_first(), lim));
                    }
                } else if *total_tokens as u64 + prefill_tokens as u64 > self.config.max_total_tokens as u64 {
                    stop = true;
                } else {
                    let seq = rem.remove(0);
                    let ghost d = seq@;
                    out.push(Arc::new(seq.duplicate()));
                    self.prefill_sequences.push(seq);
                    *total_tokens = *total_tokens + prefill_tokens;
                    *num_sequences = *num_sequences + 1;
                    proof {
                        assert(d == rem_before[0]);
                        assert(seq_views(rem@) =~= rem_before.drop_first());
                        assert(self@.prefill =~= before.prefill.push(d));
                        assert(arc_views(out@) =~= out_before.push(d)) by {
                            assert(arc_views(out@).last() == d);
                        }
                        let nm = SchedView { prefill: self@.prefill + seq_views(rem@), ..self@ };
                        assert(nm.prefill =~= mid.prefill);
                        assert(nm == mid);
                    }
                }
            }
        }
        let ghost kept = self@.prefill;
        let ghost rest = seq_views(rem@);
        self.prefill_sequences.append(&mut rem);
        proof {
            assert(self@.prefill =~= kept + rest);
            if rest.len() == 0 {
                assert(kept + rest =~= kept);
            }
        }
    }
}


/// The request at the front of the queue holds no KV blocks.
proof fn lemma_front_pending_inactive(v: SchedView, lim: Limits)
    requires
        sched_inv(v, lim),
        v.pending.len() > 0,
    ensures
        !v.tables.contains_key(v.pending[0].0),
{
    let id = v.pending[0].0;
    lemma_ids_parts(v);
    let q = pending_ids(v.pending);
    let p = seq_ids(v.prefill);
    let d = seq_ids(v.decode);
    assert(q[0] == id);
    assert(q.contains(id));
    if (p + d).contains(id) {
        let x = choose|x: int| 0 <= x < (p + d).len() && (p + d)[x] == id;
        if x < p.len() {
            assert(p[x] == id);
            assert(p.contains(id));
        } else {
            assert(d[x - p.len()] == id);
            assert(d.contains(id));
        }
    }
}

impl Scheduler {
    /// Starts the prefill of `pending`, just taken from the front of the
    /// queue: when the pool has the blocks its prompt needs, they are
    /// allocated and the sequence joins the prefill queue; otherwise the
    /// request is handed back.
    fn try_start_prefill(&mut self, pending: PendingRequest) -> (r: Result<SeqId, PendingRequest>)
        requires
            old(self).wf(),
            sched_inv(
                SchedView {
                    pending: seq![(pending.seq_id, pending.request@)] + old(self)@.pending,
                    ..old(self)@
                },
                old(self).limits(),
            ),
        ensures
            final(self).wf(),
            final(self).limits() == old(self).limits(),
            final(self).under_memory_pressure == old(self).under_memory_pressure,
            ({
                let v = old(self)@;
                let t = pending.request@.input.len() as u32;
                let need = ceil_div(t as int, old(self).limits().block_size as int);
                match r {
                    Ok(id) => {
                        &&& id == pending.seq_id
                        &&& need <= v.free.len()
                        &&& final(self)@ == (SchedView {
                            prefill: v.prefill.push(started(id, pending.request@, v.free.take(need))),
                            free: v.free.skip(need),
                            tables: v.tables.insert(id, v.free.take(need)),
                            ..v
                        })
                    },
                    Err(p) => {
                        &&& p == pending
                        &&& v.free.len() < need
                        &&& final(self)@ == v
                    },
                }
            }),
    {
        let ghost v = self@;
        let ghost lim = self.limits();
        let ghost vq = SchedView { pending: seq![(pending.seq_id, pending.request@)] + v.pending, ..v };
        let num_tokens = pending.request.input_tokens.len() as u32;
        let blocks_needed = self.config.blocks_for_tokens(num_tokens);
        if !self.kv_cache.can_allocate(blocks_needed) {
            return Err(pending);
        }
        let seq_id = pending.seq_id;
        proof {
            lemma_front_pending_inactive(vq, lim);
        }
        match self.kv_cache.allocate_sequence(seq_id, num_tokens) {
            Ok(()) => {},
            Err(_) => {
                return Err(pending);
            },
        }
        let mut sequence = Sequence::new(seq_id, pending.request);
        sequence.request.state = RequestState::Prefill;
        match self.kv_cache.get_block_table(seq_id) {
            Some(block_table) => {
                sequence.logical_blocks = blocks_from_table(&block_table);
            },
            None => {},
        }
        self.prefill_sequences.push(sequence);
        proof {
            let bs = v.free.take(blocks_needed as int);
            let st = started(seq_id, pending.request@, bs);
            assert(self.prefill_sequences@.last()@ == st);
            assert(self@.prefill =~= v.prefill.push(st));
            assert(vq.pending.drop_first() =~= v.pending);
            lemma_start_prefill(vq, bs, lim, self@);
        }
        Ok(seq_id)
    }

    /// The admission phase of a step (see [`pending_fold`]), continuing from
    /// `total_tokens` and `num_sequences`.
    fn schedule_pending(&mut self, out: &mut Vec<Arc<Sequence>>, total_tokens: &mut u32, num_sequences: &mut u32)
        requires
            old(self).wf(),
            old(out)@.len() == 0,
            *old(total_tokens) <= old(self).limits().max_total_tokens,
            *old(num_sequences) <= old(self).limits().max_batch_size,
        ensures
            ({
                let v = old(self)@;
                let lim = old(self).limits();
                let p3 = pending_fold(
                    Phase {
                        free: v.free,
                        tables: v.tables,
                        completed: v.completed,
                        total: *old(total_tokens) as int,
                        num: *old(num_sequences) as int,
                        out: Seq::empty(),
                        kept: Seq::empty(),
                        queue: v.pending,
                    },
                    lim,
                );
                &&& final(self).wf()
                &&& final(self).limits() == lim
                &&& final(self).under_memory_pressure == old(self).under_memory_pressure
                &&& final(self)@ == (SchedView {
                    pending: p3.queue,
                    prefill: v.prefill + p3.kept,
                    completed: p3.completed,
                    free: p3.free,
                    tables: p3.tables,
                    ..v
                })
                &&& arc_views(final(out)@) == p3.out
                &&& *final(total_tokens) == p3.total
                &&& *final(num_sequences) == p3.num
                &&& p3.num == *old(num_sequences) + p3.out.len()
                &&& p3.total <= lim.max_total_tokens
                &&& p3.num <= lim.max_batch_size
            }),
    {
        let ghost v = self@;
        let ghost lim = self.limits();
        let ghost p3 = pending_fold(
            Phase {
                free: v.free,
                tables: v.tables,
                completed: v.completed,
                total: *total_tokens as int,
                num: *num_sequences as int,
                out: Seq::empty(),
                kept: Seq::empty(),
                queue: v.pending,
            },
            lim,
        );
        let ghost num0 = *num_sequences as int;
        let ghost mut kept: Seq<SequenceView> = Seq::empty();
        let mut stop = false;
        proof {
            assert(arc_views(out@) =~= Seq::<SequenceView>::empty());
            assert(v.prefill + kept =~= v.prefill);
        }
        while !stop && self.pending_queue.len() > 0
            invariant
                self.wf(),
                self.limits() == lim,
                lim == old(self).limits(),
                v == old(self)@,
                self.under_memory_pressure == old(self).under_memory_pressure,
                self@.decode == v.decode,
                self@.next_seq_id == v.next_seq_id,
                self@.prefill == v.prefill + kept,
                num0 == *old(num_sequences) as int,
                pending_fold(
                    Phase {
                        free: self@.free,
                        tables: self@.tables,
                        completed: self@.completed,
                        total: *total_tokens as int,
                        num: *num_sequences as int,
                        out: arc_views(out@),
                        kept: kept,
                        queue: self@.pending,
                    },
                    lim,
                ) == p3,
                stop ==> pending_fold(
                    Phase {
                        free: self@.free,
                        tables: self@.tables,
                        completed: self@.completed,
                        total: *total_tokens as int,
                        num: *num_sequences as int,
                        out: arc_views(out@),
                        kept: kept,
                        queue: self@.pending,
                    },
                    lim,
                ) == (Phase {
                    free: self@.free,
                    tables: self@.tables,
                    completed: self@.completed,
                    total: *total_tokens as int,
                    num: *num_sequences as int,
                    out: arc_views(out@),
                    kept: kept,
                    queue: self@.pending,
                }),
                *num_sequences as int == num0 + out@.len(),
                *total_tokens <= lim.max_total_tokens,
                *num_sequences <= lim.max_batch_size,
            decreases self@.pending.len() + (if stop { 0int } else { 1int }),
        {
            let ghost before = self@;
            let ghost out_before = arc_views(out@);
            let ghost cur = Phase {
                free: self@.free,
                tables: self@.tables,
                completed: self@.completed,
                total: *total_tokens as int,
                num: *num_sequences as int,
                out: out_before,
                kept: kept,
                queue: before.pending,
            };
            proof {
                assert(pending_views(self.pending_queue@).len() == self.pending_queue@.len());
            }
            match self.pending_queue.pop_front() {
                Some(pending) => {
                    proof {
                        assert(before.pending[0] == (pending.seq_id, pending.request@));
                        assert(pending_views(self.pending_queue@) =~= before.pending.remove(0));
                        lemma_remove_pending(before, 0, lim, self@);
                        assert(seq![(pending.seq_id, pending.request@)] + self@.pending =~= before.pending);
                        assert((SchedView {
                            pending: seq![(pending.seq_id, pending.request@)] + self@.pending,
                            ..self@
                        }) == before);
                    }
                    let prefill_tokens = pending.request.input_tokens.len() as u32;
                    let blocks_needed = self.config.blocks_for_tokens(prefill_tokens);
                    let watermark = watermark_block_count(self.config.max_num_blocks, self.config.memory_threshold);
                    let used_blocks = self.kv_cache.get_memory_stats().used_blocks;
                    if *num_sequences >= self.config.max_batch_size {
                        self.pending_queue.push_front(pending);
                        stop = true;
                        proof {
                            assert(self@.pending =~= before.pending);
                        }
                    } else if prefill_tokens > self.config.max_total_tokens || blocks_needed > self.config.max_num_blocks
                        || blocks_needed as u64 > watermark {
                        let mut failed_request = pending.request;
                        let reason = if prefill_tokens > self.config.max_total_tokens {
                            text_with_two_numbers(
                                "Input tokens ",
                                prefill_tokens as u64,
                                " exceed max_total_tokens ",
                                self.config.max_total_tokens as u64,
                            )
                        } else if blocks_needed > self.config.max_num_blocks {
                            text_with_two_numbers(
                                "Required blocks ",
                                blocks_needed as u64,
                                " exceed max_num_blocks ",
                                self.config.max_num_blocks as u64,
                            )
                        } else {
                            text_with_two_numbers(
                                "Required blocks ",
                                blocks_needed as u64,
                                " exceed memory watermark blocks ",
                                watermark,
                            )
                        };
                        let ghost reason_v = reason@;
                        proof {
                            reveal_strlit("Input tokens ");
                            reveal_strlit(" exceed max_total_tokens ");
                            reveal_strlit("Required blocks ");
                            reveal_strlit(" exceed max_num_blocks ");
                            reveal_strlit(" exceed memory watermark blocks ");
                        }
                        failed_request.state = RequestState::Failed(reason);
                        self.completed_requests.push(failed_request);
                        proof {
                            let r = pending.request@;
                            let t = r.input.len() as u32;
                            let need = ceil_div(t as int, lim.block_size as int);
                            assert(t == prefill_tokens);
                            assert(need == blocks_needed);
                            let reason_s = if t > lim.max_total_tokens {
                                too_many_tokens_reason(t, lim.max_total_tokens)
                            } else if need > lim.max_num_blocks {
                                too_many_blocks_reason(need as u32, lim.max_num_blocks)
                            } else {
                                over_watermark_reason(
                                    need as u32,
                                    watermark_blocks(lim.max_num_blocks, lim.memory_threshold) as u64,
                                )
                            };
                            assert(reason_v == reason_s);
                            assert(self@.completed =~= before.completed.push(with_state(r, StateView::Failed(reason_s))));
                            lemma_remove_pending(before, 0, lim, self@);
                            assert(self@.pending == before.pending.drop_first());
                        }
                    } else if *total_tokens as u64 + prefill_tokens as u64 > self.config.max_total_tokens as u64
                        || used_blocks as u64 + blocks_needed as u64 > watermark {
                        self.pending_queue.push_front(pending);
                        stop = true;
                        proof {
                            assert(self@.pending =~= before.pending);
                        }
                    } else {
                        let ghost r = pending.request@;
                        let ghost bs = before.free.take(blocks_needed as int);
                        match self.try_start_prefill(pending) {
                            Ok(_seq_id) => {
                                let n = self.prefill_sequences.len();
                                proof {
                                    assert(n > 0);
                                }
                                out.push(Arc::new(self.prefill_sequences[n - 1].duplicate()));
                                *total_tokens = *total_tokens + prefill_tokens;
                                *num_sequences = *num_sequences + 1;
                                proof {
                                    let st = started(before.pending[0].0, r, bs);
                                    assert(self@.prefill.last() == st);
                                    assert(arc_views(out@) =~= out_before.push(st)) by {
                                        assert(arc_views(out@).last() == st);
                                    }
                                    kept = kept.push(st);
                                    assert(self@.prefill =~= v.prefill + kept);
                                }
                            },
                            Err(p) => {
                                self.pending_queue.push_front(p);
                                stop = true;
                                proof {
                                    assert(self@.pending =~= before.pending);
                                }
                            },
                        }
                    }
                },
                None => {
                    stop = true;
                },
            }
        }
    }
}


/// A prefill sequence after its prompt ran: in decode, with the prompt computed.
pub open spec fn to_decode(s: SequenceView) -> SequenceView {
    SequenceView {
        request: with_state(s.request, StateView::Decode),
        num_computed_tokens: s.request.input.len() as u32,
        ..s
    }
}

/// A sequence after it generated `tok`.
pub open spec fn with_token(s: SequenceView, tok: TokenId) -> SequenceView {
    SequenceView {
        request: RequestView { output: s.request.output.push(tok), ..s.request },
        num_generated_tokens: (s.num_generated_tokens + 1) as u32,
        ..s
    }
}

/// A sequence is finished: its request reached `max_model_len` tokens, or
/// its generation is complete (see [`output_complete`]).
pub open spec fn finished(s: SequenceView, lim: Limits, eos: TokenId) -> bool {
    ||| s.request.input.len() + s.request.output.len() >= lim.max_model_len
    ||| output_complete(s.request.output, s.request.params.max_tokens, eos)
}

/// The token an execution produced at position `i`; 0 when it produced none.
pub open spec fn token_for(toks: Seq<TokenId>, i: int) -> TokenId {
    if 0 <= i < toks.len() {
        toks[i]
    } else {
        0
    }
}

/// Recording one output entry: a prefill sequence with that id moves to the
/// back of the decode queue; then the decode sequence with that id receives
/// the token and, when finished, is noted in `due`.
pub open spec fn record_one(v: SchedView, due: Seq<SeqId>, id: SeqId, tok: TokenId, eos: TokenId, lim: Limits) -> (SchedView, Seq<SeqId>) {
    let pi = position(seq_ids(v.prefill), id);
    let v1 = if pi >= 0 {
        SchedView { prefill: v.prefill.remove(pi), decode: v.decode.push(to_decode(v.prefill[pi])), ..v }
    } else {
        v
    };
    let di = position(seq_ids(v1.decode), id);
    if di >= 0 {
        let s = with_token(v1.decode[di], tok);
        (
            SchedView { decode: v1.decode.update(di, s), ..v1 },
            if finished(s, lim, eos) { due.push(id) } else { due },
        )
    } else {
        (v1, due)
    }
}

/// Recording the output entries from position `i` on.
pub open spec fn record_from(
    v: SchedView,
    due: Seq<SeqId>,
    ids: Seq<SeqId>,
    toks: Seq<TokenId>,
    i: int,
    eos: TokenId,
    lim: Limits,
) -> (SchedView, Seq<SeqId>)
    decreases ids.len() - i,
{
    if i < 0 || i >= ids.len() {
        (v, due)
    } else {
        let (w, d2) = record_one(v, due, ids[i], token_for(toks, i), eos, lim);
        record_from(w, d2, ids, toks, i + 1, eos, lim)
    }
}

/// Completing each id of `ids` in turn.
pub open spec fn complete_all(v: SchedView, ids: Seq<SeqId>) -> SchedView
    decreases ids.len(),
{
    if ids.len() == 0 {
        v
    } else {
        complete_all(complete_view(v, ids[0]), ids.drop_first())
    }
}

/// The scheduler after recording an execution's output: every entry is
/// recorded in order, then the finished sequences complete in the order in
/// which they finished.
pub open spec fn update_view(v: SchedView, ids: Seq<SeqId>, toks: Seq<TokenId>, eos: TokenId, lim: Limits) -> SchedView {
    let (w, due) = record_from(v, Seq::empty(), ids, toks, 0, eos, lim);
    complete_all(w, due)
}

/// Allowing one more token keeps the invariant.
proof fn lemma_during_more(v: SchedView, lim: Limits, due: Seq<SeqId>, n: int)
    requires
        inv_during(v, lim, due, n),
    ensures
        inv_during(v, lim, due, n + 1),
{
    assert forall|j: int| 0 <= j < v.decode.len() implies blocks_match(#[trigger] v.decode[j], v.tables)
        && decode_during(v.decode[j], lim, due, n + 1) by {
        assert(blocks_match(v.decode[j], v.tables) && decode_during(v.decode[j], lim, due, n));
    }
}

/// Moving the prefill sequence at `pi` to the back of the decode queue keeps
/// the invariant, once that sequence is counted as due.
proof fn lemma_move_to_decode(v: SchedView, pi: int, lim: Limits, due: Seq<SeqId>, n: int, w: SchedView)
    requires
        inv_during(v, lim, due, n),
        0 <= n,
        0 <= pi < v.prefill.len(),
        w == (SchedView {
            prefill: v.prefill.remove(pi),
            decode: v.decode.push(to_decode(v.prefill[pi])),
            ..v
        }),
    ensures
        inv_during(w, lim, due.push(v.prefill[pi].seq_id), n),
{
    let id = v.prefill[pi].seq_id;
    let due2 = due.push(id);
    lemma_ids_parts(v);
    let q = pending_ids(v.pending);
    let p = seq_ids(v.prefill);
    let d = seq_ids(v.decode);
    assert(p[pi] == id);
    assert(seq_ids(w.prefill) =~= p.remove(pi));
    assert(seq_ids(w.decode) =~= d.push(id));
    let a = all_ids(v);
    let aw = all_ids(w);
    let last = aw.len() - 1;
    assert(aw.len() == a.len());
    assert forall|x: int| 0 <= x < aw.len() implies #[trigger] aw[x] == (if x < q.len() + pi {
        a[x]
    } else if x < last {
        a[x + 1]
    } else {
        a[q.len() + pi]
    }) by {}
    assert forall|x: int, y: int| 0 <= x < aw.len() && 0 <= y < aw.len() && x != y implies aw[x] != aw[y] by {
        let xx = if x < q.len() + pi { x } else if x < last { x + 1 } else { q.len() + pi };
        let yy = if y < q.len() + pi { y } else if y < last { y + 1 } else { q.len() + pi };
        assert(aw[x] == a[xx]);
        assert(aw[y] == a[yy]);
    }
    assert forall|k: int| 0 <= k < aw.len() implies #[trigger] aw[k] < w.next_seq_id by {
        let kk = if k < q.len() + pi { k } else if k < last { k + 1 } else { q.len() + pi };
        assert(aw[k] == a[kk]);
    }
    assert forall|x: SeqId| #[trigger] active_ids(w).contains(x) <==> active_ids(v).contains(x) by {
        let pd = p + d;
        let pw = seq_ids(w.prefill) + seq_ids(w.decode);
        if pw.contains(x) {
            let k = choose|k: int| 0 <= k < pw.len() && pw[k] == x;
            if k < p.len() - 1 {
                if k < pi {
                    assert(pd[k] == x);
                } else {
                    assert(pd[k + 1] == x);
                }
            } else if k < pw.len() - 1 {
                assert(pd[k + 1] == x);
            } else {
                assert(pd[pi] == x);
            }
        }
        if pd.contains(x) {
            let k = choose|k: int| 0 <= k < pd.len() && pd[k] == x;
            if k < pi {
                assert(pw[k] == x);
            } else if k == pi {
                assert(pw[pw.len() - 1] == x);
            } else if k < p.len() {
                assert(pw[k - 1] == x);
            } else {
                assert(pw[k - 1] == x);
            }
        }
    }
    assert(active_ids(w) =~= active_ids(v));
    assert forall|x: SeqId| due.contains(x) implies #[trigger] due2.contains(x) by {
        let k = choose|k: int| 0 <= k < due.len() && due[k] == x;
        assert(due2[k] == x);
    }
    assert(due2[due.len() as int] == id);
    assert forall|j: int| 0 <= j < w.prefill.len() implies blocks_match(#[trigger] w.prefill[j], w.tables)
        && prefill_ok(w.prefill[j]) by {
        let jj = if j < pi { j } else { j + 1 };
        assert(w.prefill[j] == v.prefill[jj]);
        assert(blocks_match(v.prefill[jj], v.tables) && prefill_ok(v.prefill[jj]));
    }
    assert forall|j: int| 0 <= j < w.decode.len() implies blocks_match(#[trigger] w.decode[j], w.tables)
        && decode_during(w.decode[j], lim, due2, n) by {
        if j < v.decode.len() {
            assert(w.decode[j] == v.decode[j]);
            assert(blocks_match(v.decode[j], v.tables) && decode_during(v.decode[j], lim, due, n));
            if due.contains(v.decode[j].seq_id) {
                assert(due2.contains(v.decode[j].seq_id));
            }
        } else {
            assert(w.decode[j] == to_decode(v.prefill[pi]));
            assert(blocks_match(v.prefill[pi], v.tables) && prefill_ok(v.prefill[pi]));
            assert(due2.contains(id));
        }
    }
}

/// Giving the decode sequence at `di` one more token keeps the invariant,
/// when every due id but its own stays due and it is due once finished.
proof fn lemma_add_token(
    w: SchedView,
    di: int,
    tok: TokenId,
    eos: TokenId,
    lim: Limits,
    d1: Seq<SeqId>,
    d2: Seq<SeqId>,
    n: int,
    w2: SchedView,
)
    requires
        inv_during(w, lim, d1, n),
        0 <= n,
        n + lim.max_model_len < u32::MAX,
        0 <= di < w.decode.len(),
        forall|x: SeqId| #[trigger] d1.contains(x) && x != w.decode[di].seq_id ==> d2.contains(x),
        finished(with_token(w.decode[di], tok), lim, eos) ==> d2.contains(w.decode[di].seq_id),
        w2 == (SchedView { decode: w.decode.update(di, with_token(w.decode[di], tok)), ..w }),
    ensures
        inv_during(w2, lim, d2, n + 1),
{
    let id = w.decode[di].seq_id;
    lemma_ids_parts(w);
    assert(seq_ids(w2.decode) =~= seq_ids(w.decode));
    assert(all_ids(w2) =~= all_ids(w));
    assert(active_ids(w2) =~= active_ids(w));
    assert forall|j: int| 0 <= j < w2.prefill.len() implies blocks_match(#[trigger] w2.prefill[j], w2.tables)
        && prefill_ok(w2.prefill[j]) by {
        assert(blocks_match(w.prefill[j], w.tables) && prefill_ok(w.prefill[j]));
    }
    assert forall|j: int| 0 <= j < w2.decode.len() implies blocks_match(#[trigger] w2.decode[j], w2.tables)
        && decode_during(w2.decode[j], lim, d2, n + 1) by {
        assert(blocks_match(w.decode[j], w.tables) && decode_during(w.decode[j], lim, d1, n));
        if j != di {
            assert(seq_ids(w.decode)[j] != seq_ids(w.decode)[di]);
            if d1.contains(w.decode[j].seq_id) {
                assert(d2.contains(w.decode[j].seq_id));
            }
        }
    }
}

/// Once no due id is in the decode queue, the invariant holds again.
proof fn lemma_settled(v: SchedView, lim: Limits, due: Seq<SeqId>, n: int)
    requires
        inv_during(v, lim, due, n),
        forall|k: int| 0 <= k < due.len() ==> !seq_ids(v.decode).contains(#[trigger] due[k]),
    ensures
        sched_inv(v, lim),
{
    assert forall|j: int| 0 <= j < v.decode.len() implies blocks_match(#[trigger] v.decode[j], v.tables)
        && decode_during(v.decode[j], lim, Seq::empty(), 0) by {
        assert(blocks_match(v.decode[j], v.tables) && decode_during(v.decode[j], lim, due, n));
        assert(seq_ids(v.decode)[j] == v.decode[j].seq_id);
        if due.contains(v.decode[j].seq_id) {
            let k = choose|k: int| 0 <= k < due.len() && due[k] == v.decode[j].seq_id;
            assert(!seq_ids(v.decode).contains(due[k]));
        }
    }
}


/// Whether the prompt and the output of `request` together have at least
/// `max_model_len` tokens.
fn reached_length(request: &Request, max_model_len: u32) -> (r: bool)
    ensures
        r == (request@.input.len() + request@.output.len() >= max_model_len),
{
    let input_len = request.input_tokens.len();
    input_len >= max_model_len as usize || request.output_tokens.len() >= max_model_len as usize - input_len
}

/// `decode_fold` leaves the queue of the phase as it is.
proof fn lemma_decode_fold_queue(p: Phase, ds: Seq<SequenceView>, lim: Limits)
    ensures
        decode_fold(p, ds, lim).queue == p.queue,
    decreases ds.len(),
{
    if ds.len() > 0 && !(p.num >= lim.max_batch_size || p.total + 1 > lim.max_total_tokens) {
        let d = ds[0];
        let need = ceil_div(d.context_len() + 1, lim.block_size as int);
        let next = if need > d.blocks.len() {
            if p.free.len() == 0 {
                fail_active(p, d, kv_fail_reason())
            } else {
                let g = grow(d, p.free[0]);
                Phase {
                    free: p.free.drop_first(),
                    tables: p.tables.insert(d.seq_id, p.tables[d.seq_id].push(p.free[0])),
                    total: p.total + 1,
                    num: p.num + 1,
                    out: p.out.push(g),
                    kept: p.kept.push(g),
                    ..p
                }
            }
        } else {
            Phase { total: p.total + 1, num: p.num + 1, out: p.out.push(d), kept: p.kept.push(d), ..p }
        };
        lemma_decode_fold_queue(next, ds.drop_first(), lim);
    }
}

impl Scheduler {
    /// Moves prefill sequence `seq_id` to the back of the decode queue, its
    /// prompt computed; an id not in prefill changes nothing.
    fn transition_to_decode(&mut self, seq_id: SeqId)
        requires
            old(self).kv_ok(),
            all_ids(old(self)@).no_duplicates(),
        ensures
            final(self).kv_ok(),
            final(self).limits() == old(self).limits(),
            final(self).under_memory_pressure == old(self).under_memory_pressure,
            ({
                let v = old(self)@;
                let pi = position(seq_ids(v.prefill), seq_id);
                final(self)@ == if pi >= 0 {
                    SchedView { prefill: v.prefill.remove(pi), decode: v.decode.push(to_decode(v.prefill[pi])), ..v }
                } else {
                    v
                }
            }),
    {
        proof {
            lemma_ids_parts(self@);
        }
        let ghost v = self@;
        match find_sequence(&self.prefill_sequences, seq_id) {
            Some(i) => {
                proof {
                    lemma_position(seq_ids(v.prefill), i as int);
                }
                let mut sequence = self.prefill_sequences.remove(i);
                sequence.request.state = RequestState::Decode;
                sequence.num_computed_tokens = sequence.request.input_tokens.len() as u32;
                self.decode_sequences.push(sequence);
                proof {
                    assert(self@.prefill =~= v.prefill.remove(i as int));
                    assert(self@.decode =~= v.decode.push(to_decode(v.prefill[i as int])));
                }
            },
            None => {},
        }
    }
}

impl SchedulerTrait for Scheduler {
    open spec fn sched_ok(&self) -> bool {
        self.wf()
    }

    open spec fn has_room(&self) -> bool {
        self.room()
    }

    open spec fn output_fits(&self, n: nat) -> bool {
        n + self.limits().max_model_len <= u32::MAX
    }

    /// Queues a request; see [`add_request_result`].
    fn add_request(&mut self, request: Request) -> (r: Result<SeqId, SchedulerError>)
        ensures
            final(self).limits() == old(self).limits(),
            (r, final(self)@) == add_request_result(old(self)@, old(self).limits(), request@),
            old(self)@.prefill.len() + old(self)@.decode.len() >= old(self).limits().max_num_seqs ==> r == Err::<
                SeqId,
                SchedulerError,
            >(SchedulerError::MemoryPressure) && final(self)@ == old(self)@,
            r matches Ok(id) ==> id == old(self)@.next_seq_id && old(self)@.prefill.len() + old(self)@.decode.len()
                < old(self).limits().max_num_seqs && final(self)@.pending == old(self)@.pending.push((id, request@)),
    {
        proof {
            law_admission_control(old(self)@, old(self).limits(), request@);
        }
        self.update_memory_pressure();
        if self.under_memory_pressure {
            return Err(SchedulerError::MemoryPressure);
        }
        if self.num_active_sequences() >= self.config.max_num_seqs as usize {
            return Err(SchedulerError::MemoryPressure);
        }
        let ghost v = self@;
        let seq_id = self.next_seq_id;
        self.next_seq_id = self.next_seq_id + 1;
        self.pending_queue.push_back(PendingRequest { seq_id, request });
        proof {
            let w = self@;
            assert(w.pending =~= v.pending.push((seq_id, request@)));
            assert(all_ids(w) =~= pending_ids(v.pending).push(seq_id) + seq_ids(v.prefill) + seq_ids(v.decode));
            assert forall|k: int| 0 <= k < all_ids(w).len() implies #[trigger] all_ids(w)[k] < w.next_seq_id by {
                let q = pending_ids(v.pending);
                if k < q.len() {
                    assert(all_ids(w)[k] == all_ids(v)[k]);
                } else if k > q.len() {
                    assert(all_ids(w)[k] == all_ids(v)[k - 1]);
                }
            }
            assert forall|x: int, y: int| 0 <= x < all_ids(w).len() && 0 <= y < all_ids(w).len() && x != y implies all_ids(w)[x] != all_ids(w)[y] by {
                let q = pending_ids(v.pending);
                let a = all_ids(v);
                if x == q.len() {
                    let yy = if y < q.len() { y } else { y - 1 };
                    assert(all_ids(w)[y] == a[yy]);
                } else if y == q.len() {
                    let xx = if x < q.len() { x } else { x - 1 };
                    assert(all_ids(w)[x] == a[xx]);
                } else {
                    let xx = if x < q.len() { x } else { x - 1 };
                    let yy = if y < q.len() { y } else { y - 1 };
                    assert(all_ids(w)[x] == a[xx]);
                    assert(all_ids(w)[y] == a[yy]);
                }
            }
            assert(active_ids(w) =~= active_ids(v));
        }
        Ok(seq_id)
    }

    /// Takes the finished requests, oldest first.
    fn get_completed(&mut self) -> (r: Vec<Request>)
        ensures
            final(self).limits() == old(self).limits(),
            request_views(r@) == old(self)@.completed,
            final(self)@ == (SchedView { completed: Seq::empty(), ..old(self)@ }),
    {
        let mut taken: Vec<Request> = Vec::new();
        std::mem::swap(&mut taken, &mut self.completed_requests);
        proof {
            assert(request_views(self.completed_requests@) =~= Seq::<RequestView>::empty());
        }
        taken
    }

    /// Whether any request is pending or active.
    fn has_pending_work(&self) -> (r: bool)
        ensures
            r == (self@.pending.len() > 0 || self@.prefill.len() > 0 || self@.decode.len() > 0),
    {
        self.pending_queue.len() > 0 || self.prefill_sequences.len() > 0
            || self.decode_sequences.len() > 0
    }

    /// KV pool utilization, in millionths, rounded down.
    fn get_memory_utilization(&self) -> (r: u64)
        ensures
            r == (if self.limits().max_num_blocks == 0 {
                0
            } else {
                ((self.limits().max_num_blocks - self@.free.len()) * PPM_ONE) / self.limits().max_num_blocks as int
            }),
    {
        proof {
            self.kv_cache.lemma_wf_facts();
        }
        self.kv_cache.get_memory_stats().utilization()
    }


    /// One step (see [`schedule_phases`]): decode sequences first, then
    /// started prefills, then, unless the pool was under memory pressure at
    /// the start, new prefills from the queue.
    fn schedule(&mut self) -> (r: SchedulerOutput)
        ensures
            final(self).limits() == old(self).limits(),
            final(self)@ == schedule_view(old(self)@, old(self).limits()),
            ({
                let (p1, p2, p3) = schedule_phases(old(self)@, old(self).limits());
                &&& arc_views(r.decode_sequences@) == p1.out
                &&& arc_views(r.prefill_sequences@) == p2.out + p3.out
                &&& r.total_tokens == p3.total
            }),
            r.total_tokens == prompt_total(arc_views(r.prefill_sequences@)) + r.decode_sequences@.len(),
            all_fit(arc_views(r.prefill_sequences@)),
            all_fit(arc_views(r.decode_sequences@)),
            r.total_tokens <= old(self).limits().max_total_tokens,
            r.decode_sequences@.len() + r.prefill_sequences@.len() <= old(self).limits().max_batch_size,
            forall|i: int|
                0 <= i < r.decode_sequences@.len() ==> blocks_match(
                    #[trigger] arc_views(r.decode_sequences@)[i],
                    final(self)@.tables,
                ),
            forall|i: int|
                0 <= i < r.prefill_sequences@.len() ==> blocks_match(
                    #[trigger] arc_views(r.prefill_sequences@)[i],
                    final(self)@.tables,
                ),
            seq_ids(arc_views(r.decode_sequences@) + arc_views(r.prefill_sequences@)).no_duplicates(),
            (forall|j: int|
                0 <= j < old(self)@.decode.len() ==> ceil_div(
                    (#[trigger] old(self)@.decode[j]).context_len() + 1,
                    old(self).limits().block_size as int,
                ) <= old(self)@.decode[j].blocks.len() + 1) ==> forall|i: int|
                0 <= i < r.decode_sequences@.len() ==> (#[trigger] arc_views(r.decode_sequences@)[i]).blocks.len()
                    >= ceil_div(arc_views(r.decode_sequences@)[i].context_len() + 1, old(self).limits().block_size as int),
    {
        let ghost v = self@;
        let ghost lim = self.limits();
        proof {
            lemma_schedule_out(v, lim);
        }
        let mut total_tokens: u32 = 0;
        let mut num_sequences: u32 = 0;
        self.update_memory_pressure();
        let mut decode_out: Vec<Arc<Sequence>> = Vec::new();
        self.schedule_decode(&mut decode_out, &mut total_tokens, &mut num_sequences);
        let ghost p1 = decode_fold(start_phase(v), v.decode, lim);
        proof {
            lemma_decode_fold_queue(start_phase(v), v.decode, lim);
        }
        let mut prefill_out: Vec<Arc<Sequence>> = Vec::new();
        self.schedule_prefill(&mut prefill_out, &mut total_tokens, &mut num_sequences);
        let ghost p2 = prefill_fold(Phase { out: Seq::empty(), kept: Seq::empty(), ..p1 }, v.prefill, lim);
        if !self.under_memory_pressure {
            let mut started_out: Vec<Arc<Sequence>> = Vec::new();
            self.schedule_pending(&mut started_out, &mut total_tokens, &mut num_sequences);
            let ghost from_prefill = arc_views(prefill_out@);
            let ghost from_pending = arc_views(started_out@);
            prefill_out.append(&mut started_out);
            proof {
                assert(arc_views(prefill_out@) =~= from_prefill + from_pending);
            }
        } else {
            proof {
                assert(arc_views(prefill_out@) =~= p2.out + Seq::<SequenceView>::empty());
                assert(p2.kept + Seq::<SequenceView>::empty() =~= p2.kept);
            }
        }
        let out = SchedulerOutput { prefill_sequences: prefill_out, decode_sequences: decode_out, total_tokens };
        proof {
            law_scheduled_stay_queued(v, lim);
            law_scheduled_ids_distinct(v, lim);
            if forall|j: int|
                0 <= j < v.decode.len() ==> ceil_div((#[trigger] v.decode[j]).context_len() + 1, lim.block_size as int)
                    <= v.decode[j].blocks.len() + 1 {
                law_decode_capacity(v, lim);
            }
            let w = self@;
            assert(self.wf());
            assert forall|i: int| 0 <= i < out.decode_sequences@.len() implies blocks_match(
                #[trigger] arc_views(out.decode_sequences@)[i],
                w.tables,
            ) by {
                let s = arc_views(out.decode_sequences@)[i];
                assert(w.decode.contains(s));
                let k = choose|k: int| 0 <= k < w.decode.len() && w.decode[k] == s;
                assert(blocks_match(w.decode[k], w.tables));
            }
            assert forall|i: int| 0 <= i < out.prefill_sequences@.len() implies blocks_match(
                #[trigger] arc_views(out.prefill_sequences@)[i],
                w.tables,
            ) by {
                let s = arc_views(out.prefill_sequences@)[i];
                assert(w.prefill.contains(s));
                let k = choose|k: int| 0 <= k < w.prefill.len() && w.prefill[k] == s;
                assert(blocks_match(w.prefill[k], w.tables));
            }
        }
        out
    }

    /// Records an execution's output (see [`update_view`]).
    fn update_sequences(&mut self, outputs: &ExecutionOutput, eos_token_id: TokenId)
        ensures
            final(self).limits() == old(self).limits(),
            final(self)@ == update_view(
                old(self)@,
                outputs.seq_ids@,
                outputs.next_tokens@,
                eos_token_id,
                old(self).limits(),
            ),
    {
        let ghost v = self@;
        let ghost lim = self.limits();
        let ghost ids = outputs.seq_ids@;
        let ghost toks = outputs.next_tokens@;
        let mut to_complete: Vec<SeqId> = Vec::new();
        let mut i: usize = 0;
        while i < outputs.seq_ids.len()
            invariant
                self.kv_ok(),
                self.limits() == lim,
                lim == old(self).limits(),
                v == old(self)@,
                ids == outputs.seq_ids@,
                toks == outputs.next_tokens@,
                i <= ids.len(),
                ids.len() + lim.max_model_len <= u32::MAX,
                inv_during(self@, lim, to_complete@, i as int),
                record_from(self@, to_complete@, ids, toks, i as int, eos_token_id, lim)
                    == record_from(v, Seq::empty(), ids, toks, 0, eos_token_id, lim),
            decreases ids.len() - i,
        {
            let seq_id = outputs.seq_ids[i];
            let next_token: TokenId = if i < outputs.next_tokens.len() {
                outputs.next_tokens[i]
            } else {
                0
            };
            let ghost before = self@;
            let ghost due0 = to_complete@;
            proof {
                lemma_ids_parts(before);
            }
            let in_prefill = find_sequence(&self.prefill_sequences, seq_id).is_some();
            let ghost pi = position(seq_ids(before.prefill), seq_id);
            if in_prefill {
                self.transition_to_decode(seq_id);
            }
            let ghost mid = self@;
            let ghost dm = if pi >= 0 { due0.push(seq_id) } else { due0 };
            proof {
                if pi >= 0 {
                    let k = choose|k: int| 0 <= k < seq_ids(before.prefill).len() && seq_ids(before.prefill)[k] == seq_id;
                    lemma_position(seq_ids(before.prefill), k);
                    assert(before.prefill[pi].seq_id == seq_id);
                    lemma_move_to_decode(before, pi, lim, due0, i as int, mid);
                }
                lemma_ids_parts(mid);
            }
            match find_sequence(&self.decode_sequences, seq_id) {
                Some(j) => {
                    proof {
                        lemma_position(seq_ids(mid.decode), j as int);
                        assert(blocks_match(mid.decode[j as int], mid.tables)
                            && decode_during(mid.decode[j as int], lim, dm, i as int));
                    }
                    let mut sequence = self.decode_sequences.remove(j);
                    sequence.request.output_tokens.push(next_token);
                    sequence.num_generated_tokens = sequence.num_generated_tokens + 1;
                    let done = reached_length(&sequence.request, self.config.max_model_len)
                        || sequence.request.is_complete(eos_token_id);
                    let ghost s = sequence@;
                    self.decode_sequences.insert(j, sequence);
                    if done {
                        to_complete.push(seq_id);
                    }
                    proof {
                        assert(s == with_token(mid.decode[j as int], token_for(toks, i as int)));
                        assert(done == finished(s, lim, eos_token_id));
                        assert(self@.decode =~= mid.decode.update(j as int, s));
                        assert forall|x: SeqId| #[trigger] dm.contains(x) && x != seq_id implies to_complete@.contains(x) by {
                            if pi >= 0 {
                                let k = choose|k: int| 0 <= k < dm.len() && dm[k] == x;
                                assert(k < due0.len());
                                assert(due0[k] == x);
                            }
                            let k = choose|k: int| 0 <= k < due0.len() && due0[k] == x;
                            if done {
                                assert(to_complete@[k] == x);
                            }
                        }
                        if done {
                            assert(to_complete@[due0.len() as int] == seq_id);
                        }
                        lemma_add_token(mid, j as int, token_for(toks, i as int), eos_token_id, lim, dm, to_complete@, i as int, self@);
                    }
                },
                None => {
                    proof {
                        if pi >= 0 {
                            let last = mid.decode.len() - 1;
                            assert(seq_ids(mid.decode)[last] == seq_id);
                        }
                        lemma_during_more(mid, lim, due0, i as int);
                    }
                },
            }
            i = i + 1;
        }
        let ghost recorded = self@;
        let ghost due = to_complete@;
        let ghost n = i as int;
        let mut k: usize = 0;
        proof {
            assert(due.skip(0) =~= due);
        }
        while k < to_complete.len()
            invariant
                self.kv_ok(),
                self.limits() == lim,
                lim == old(self).limits(),
                v == old(self)@,
                due == to_complete@,
                k <= due.len(),
                inv_during(self@, lim, due, n),
                complete_all(self@, due.skip(k as int)) == complete_all(recorded, due),
                forall|kk: int| 0 <= kk < k ==> !seq_ids(self@.decode).contains(#[trigger] due[kk]),
            decreases due.len() - k,
        {
            let ghost before = self@;
            self.complete_sequence(to_complete[k], Ghost(due), Ghost(n));
            proof {
                assert(due.skip(k as int).drop_first() =~= due.skip(k + 1));
                lemma_ids_parts(before);
                lemma_ids_parts(self@);
                let id = due[k as int];
                let di = position(seq_ids(before.decode), id);
                if di >= 0 {
                    let x = choose|x: int| 0 <= x < seq_ids(before.decode).len() && seq_ids(before.decode)[x] == id;
                    lemma_position(seq_ids(before.decode), x);
                    assert(seq_ids(self@.decode) =~= seq_ids(before.decode).remove(di));
                } else {
                    let pi = position(seq_ids(before.prefill), id);
                    assert(self@.decode == before.decode);
                }
                assert forall|kk: int| 0 <= kk <= k implies !seq_ids(self@.decode).contains(#[trigger] due[kk]) by {
                    if seq_ids(self@.decode).contains(due[kk]) {
                        let x = choose|x: int| 0 <= x < seq_ids(self@.decode).len() && seq_ids(self@.decode)[x] == due[kk];
                        if di >= 0 {
                            let xx = if x < di { x } else { x + 1 };
                            assert(seq_ids(before.decode)[xx] == due[kk]);
                            if kk < k {
                                assert(seq_ids(before.decode).contains(due[kk]));
                            } else {
                                assert(xx != di);
                            }
                        } else {
                            assert(seq_ids(before.decode)[x] == due[kk]);
                            assert(seq_ids(before.decode).contains(due[kk]));
                        }
                    }
                }
            }
            k = k + 1;
        }
        proof {
            lemma_settled(self@, lim, due, n);
            assert(due.skip(due.len() as int) =~= Seq::<SeqId>::empty());
        }
    }
}


/// Under memory pressure a step admits no pending request: the queue is left
/// as it was and no new prefill is scheduled.
pub proof fn law_pressure_blocks_admission(v: SchedView, lim: Limits)
    requires
        under_pressure(v.free.len(), lim.max_num_blocks as nat, lim.memory_threshold),
    ensures
        schedule_view(v, lim).pending == v.pending,
        schedule_phases(v, lim).2.out.len() == 0,
{
}

/// The admission phase never takes the pool over the watermark: once a
/// request has started, the used blocks stay at or below it.
proof fn lemma_pending_fold_watermark(p: Phase, lim: Limits)
    requires
        lim.block_size > 0,
    ensures
        pending_fold(p, lim).out.len() > p.out.len() ==> lim.max_num_blocks - pending_fold(p, lim).free.len()
            <= watermark_blocks(lim.max_num_blocks, lim.memory_threshold),
        pending_fold(p, lim).out.len() >= p.out.len(),
        pending_fold(p, lim).out.len() == p.out.len() ==> pending_fold(p, lim).free == p.free,
    decreases p.queue.len(),
{
    if p.queue.len() > 0 && p.num < lim.max_batch_size {
        let id = p.queue[0].0;
        let r = p.queue[0].1;
        let t = r.input.len() as u32;
        let rest = p.queue.drop_first();
        let need = ceil_div(t as int, lim.block_size as int);
        let wm = watermark_blocks(lim.max_num_blocks, lim.memory_threshold);
        if t > lim.max_total_tokens {
            lemma_pending_fold_watermark(
                Phase {
                    queue: rest,
                    completed: p.completed.push(with_state(r, StateView::Failed(too_many_tokens_reason(t, lim.max_total_tokens)))),
                    ..p
                },
                lim,
            );
        } else if need > lim.max_num_blocks {
            lemma_pending_fold_watermark(
                Phase {
                    queue: rest,
                    completed: p.completed.push(with_state(r, StateView::Failed(too_many_blocks_reason(need as u32, lim.max_num_blocks)))),
                    ..p
                },
                lim,
            );
        } else if need > wm {
            lemma_pending_fold_watermark(
                Phase {
                    queue: rest,
                    completed: p.completed.push(
                        with_state(r, StateView::Failed(over_watermark_reason(need as u32, wm as u64))),
                    ),
                    ..p
                },
                lim,
            );
        } else if p.total + t > lim.max_total_tokens || p.free.len() < need || lim.max_num_blocks - p.free.len()
            + need > wm {
        } else {
            let st = started(id, r, p.free.take(need));
            let next = Phase {
                queue: rest,
                free: p.free.skip(need),
                tables: p.tables.insert(id, p.free.take(need)),
                total: p.total + t,
                num: p.num + 1,
                out: p.out.push(st),
                kept: p.kept.push(st),
                ..p
            };
            assert(need >= 0) by (nonlinear_arith)
                requires
                    need == (t as int + lim.block_size as int - 1) / (lim.block_size as int),
                    lim.block_size > 0,
            ;
            assert(next.free.len() == p.free.len() - need);
            lemma_pending_fold_watermark(next, lim);
        }
    }
}

/// Law: a step that starts a new request leaves the KV pool at or below
/// the memory watermark.
pub proof fn law_admission_respects_watermark(v: SchedView, lim: Limits)
    requires
        lim.block_size > 0,
        schedule_phases(v, lim).2.out.len() > 0,
    ensures
        lim.max_num_blocks - schedule_view(v, lim).free.len() <= watermark_blocks(lim.max_num_blocks, lim.memory_threshold),
{
    let (p1, p2, p3) = schedule_phases(v, lim);
    let p3s = Phase { out: Seq::empty(), kept: Seq::empty(), queue: v.pending, ..p2 };
    if !under_pressure(v.free.len(), lim.max_num_blocks as nat, lim.memory_threshold) {
        lemma_pending_fold_watermark(p3s, lim);
    }
}

/// Law: a request the scheduler holds is in exactly one of the pending,
/// prefill and decode queues.
pub proof fn law_one_place(v: SchedView, lim: Limits, id: SeqId)
    requires
        sched_inv(v, lim),
        all_ids(v).contains(id),
    ensures
        pending_ids(v.pending).contains(id) || seq_ids(v.prefill).contains(id) || seq_ids(v.decode).contains(id),
        pending_ids(v.pending).contains(id) ==> !seq_ids(v.prefill).contains(id) && !seq_ids(v.decode).contains(id),
        seq_ids(v.prefill).contains(id) ==> !seq_ids(v.decode).contains(id),
{
    lemma_ids_parts(v);
    let q = pending_ids(v.pending);
    let p = seq_ids(v.prefill);
    let d = seq_ids(v.decode);
    let x = choose|x: int| 0 <= x < all_ids(v).len() && all_ids(v)[x] == id;
    if x < q.len() {
        assert(q[x] == id);
    } else if x < q.len() + p.len() {
        assert(p[x - q.len()] == id);
    } else {
        assert(d[x - q.len() - p.len()] == id);
    }
}

/// Law: sequence ids are unique, and the id an accepted request receives is
/// new: no request the scheduler holds has it, and the next id is larger.
pub proof fn law_fresh_ids(v: SchedView, lim: Limits, request: RequestView)
    requires
        sched_inv(v, lim),
        v.next_seq_id < u64::MAX,
    ensures
        all_ids(v).no_duplicates(),
        add_request_result(v, lim, request).0 matches Ok(id) ==> !all_ids(v).contains(id)
            && add_request_result(v, lim, request).1.next_seq_id > id,
{
    if add_request_result(v, lim, request).0 is Ok {
        if all_ids(v).contains(v.next_seq_id) {
            let k = choose|k: int| 0 <= k < all_ids(v).len() && all_ids(v)[k] == v.next_seq_id;
            assert(all_ids(v)[k] < v.next_seq_id);
        }
    }
}

/// Law: a sequence that fails or completes leaves the KV page tables, and
/// its blocks return to the free list.
pub proof fn law_terminal_frees(v: SchedView, lim: Limits, id: SeqId, reason: Seq<char>)
    requires
        sched_inv(v, lim),
        active_ids(v).contains(id),
    ensures
        fail_view(v, id, reason).free == v.free + v.tables[id],
        !fail_view(v, id, reason).tables.contains_key(id),
        complete_view(v, id).free == v.free + v.tables[id],
        !complete_view(v, id).tables.contains_key(id),
{
    law_one_queue(v, lim, id);
}

/// Law: a prefill sequence that receives its first token moves to the back
/// of the decode queue in the same update, with the token recorded.
pub proof fn law_prefill_to_decode(v: SchedView, lim: Limits, due: Seq<SeqId>, id: SeqId, tok: TokenId, eos: TokenId)
    requires
        sched_inv(v, lim),
        seq_ids(v.prefill).contains(id),
    ensures
        ({
            let w = record_one(v, due, id, tok, eos, lim).0;
            &&& !seq_ids(w.prefill).contains(id)
            &&& seq_ids(w.decode).contains(id)
            &&& w.decode.last() == with_token(to_decode(v.prefill[position(seq_ids(v.prefill), id)]), tok)
        }),
{
    lemma_ids_parts(v);
    let pi = position(seq_ids(v.prefill), id);
    let x = to_decode(v.prefill[pi]);
    let v1 = SchedView { prefill: v.prefill.remove(pi), decode: v.decode.push(x), ..v };
    assert(seq_ids(v1.prefill) =~= seq_ids(v.prefill).remove(pi));
    assert(!seq_ids(v1.prefill).contains(id)) by {
        if seq_ids(v1.prefill).contains(id) {
            let j = choose|j: int| 0 <= j < seq_ids(v1.prefill).len() && seq_ids(v1.prefill)[j] == id;
            if j < pi {
                assert(seq_ids(v.prefill)[j] == id);
            } else {
                assert(seq_ids(v.prefill)[j + 1] == id);
            }
        }
    }
    assert(seq_ids(v1.decode) =~= seq_ids(v.decode).push(id));
    let last = v1.decode.len() - 1;
    assert(seq_ids(v1.decode)[last] == id);
    assert(seq_ids(v1.decode).contains(id));
    let di = position(seq_ids(v1.decode), id);
    assert(di == last) by {
        if di != last {
            assert(seq_ids(v.decode)[di] == id);
            assert(seq_ids(v.decode).contains(id));
        }
    }
    let w = SchedView { decode: v1.decode.update(last, with_token(x, tok)), ..v1 };
    assert(record_one(v, due, id, tok, eos, lim).0 == w);
    assert(seq_ids(w.decode)[last] == id);
    assert(seq_ids(w.prefill) == seq_ids(v1.prefill));
}

/// Law: a decode sequence that receives a token is marked to complete
/// exactly when it then reached `max_tokens`, produced EOS, or filled
/// `max_model_len`.
pub proof fn law_completion_condition(
    v: SchedView,
    lim: Limits,
    due: Seq<SeqId>,
    id: SeqId,
    tok: TokenId,
    eos: TokenId,
)
    requires
        sched_inv(v, lim),
        seq_ids(v.decode).contains(id),
    ensures
        record_one(v, due, id, tok, eos, lim).1 == (if finished(
            with_token(v.decode[position(seq_ids(v.decode), id)], tok),
            lim,
            eos,
        ) {
            due.push(id)
        } else {
            due
        }),
{
    lemma_ids_parts(v);
}

/// The decode phase either handles every sequence, scheduling or failing
/// it, or stops with a full batch or no token left.
proof fn lemma_decode_fold_handles(p: Phase, ds: Seq<SequenceView>, lim: Limits)
    ensures
        ({
            let q = decode_fold(p, ds, lim);
            ||| (q.out.len() - p.out.len()) + (q.completed.len() - p.completed.len()) == ds.len()
            ||| q.num >= lim.max_batch_size || q.total + 1 > lim.max_total_tokens
        }),
    decreases ds.len(),
{
    if ds.len() > 0 && !(p.num >= lim.max_batch_size || p.total + 1 > lim.max_total_tokens) {
        let d = ds[0];
        let need = ceil_div(d.context_len() + 1, lim.block_size as int);
        let next = if need > d.blocks.len() {
            if p.free.len() == 0 {
                fail_active(p, d, kv_fail_reason())
            } else {
                let g = grow(d, p.free[0]);
                Phase {
                    free: p.free.drop_first(),
                    tables: p.tables.insert(d.seq_id, p.tables[d.seq_id].push(p.free[0])),
                    total: p.total + 1,
                    num: p.num + 1,
                    out: p.out.push(g),
                    kept: p.kept.push(g),
                    ..p
                }
            }
        } else {
            Phase { total: p.total + 1, num: p.num + 1, out: p.out.push(d), kept: p.kept.push(d), ..p }
        };
        lemma_decode_fold_handles(next, ds.drop_first(), lim);
    }
}

/// Every prompt among `ps` has at least one token.
pub open spec fn prompts_nonempty(ps: Seq<SequenceView>) -> bool {
    forall|i: int| 0 <= i < ps.len() ==> 0 < (#[trigger] ps[i]).request.input.len() <= u32::MAX
}

/// Every pending prompt has at least one token.
pub open spec fn pending_prompts_nonempty(q: Seq<(SeqId, RequestView)>) -> bool {
    forall|i: int| 0 <= i < q.len() ==> 0 < (#[trigger] q[i]).1.input.len() <= u32::MAX
}

/// With a full batch, or no token left, the prefill phase schedules nothing.
proof fn lemma_prefill_fold_closed(p: Phase, ps: Seq<SequenceView>, lim: Limits)
    requires
        p.num >= lim.max_batch_size || p.total + 1 > lim.max_total_tokens,
        prompts_nonempty(ps),
    ensures
        prefill_fold(p, ps, lim).out == p.out,
        prefill_fold(p, ps, lim).num == p.num,
        prefill_fold(p, ps, lim).total == p.total,
    decreases ps.len(),
{
    if ps.len() > 0 && p.num < lim.max_batch_size {
        let s = ps[0];
        let t = s.request.input.len() as u32;
        let need = ceil_div(t as int, lim.block_size as int);
        assert(t > 0);
        assert(prompts_nonempty(ps.drop_first())) by {
            assert forall|i: int| 0 <= i < ps.drop_first().len() implies 0 < (#[trigger] ps.drop_first()[i]).request.input.len() <= u32::MAX by {
                assert(ps.drop_first()[i] == ps[i + 1]);
            }
        }
        if t > lim.max_total_tokens {
            lemma_prefill_fold_closed(fail_active(p, s, too_many_tokens_reason(t, lim.max_total_tokens)), ps.drop_first(), lim);
        } else if need > lim.max_num_blocks {
            lemma_prefill_fold_closed(fail_active(p, s, too_many_blocks_reason(need as u32, lim.max_num_blocks)), ps.drop_first(), lim);
        }
    }
}

/// With a full batch, or no token left, the admission phase starts nothing.
proof fn lemma_pending_fold_closed(p: Phase, lim: Limits)
    requires
        p.num >= lim.max_batch_size || p.total + 1 > lim.max_total_tokens,
        pending_prompts_nonempty(p.queue),
    ensures
        pending_fold(p, lim).out == p.out,
    decreases p.queue.len(),
{
    if p.queue.len() > 0 && p.num < lim.max_batch_size {
        let r = p.queue[0].1;
        let t = r.input.len() as u32;
        let rest = p.queue.drop_first();
        let need = ceil_div(t as int, lim.block_size as int);
        let wm = watermark_blocks(lim.max_num_blocks, lim.memory_threshold);
        assert(t > 0);
        assert(pending_prompts_nonempty(rest)) by {
            assert forall|i: int| 0 <= i < rest.len() implies 0 < (#[trigger] rest[i]).1.input.len() <= u32::MAX by {
                assert(rest[i] == p.queue[i + 1]);
            }
        }
        if t > lim.max_total_tokens {
            lemma_pending_fold_closed(
                Phase {
                    queue: rest,
                    completed: p.completed.push(with_state(r, StateView::Failed(too_many_tokens_reason(t, lim.max_total_tokens)))),
                    ..p
                },
                lim,
            );
        } else if need > lim.max_num_blocks {
            lemma_pending_fold_closed(
                Phase {
                    queue: rest,
                    completed: p.completed.push(with_state(r, StateView::Failed(too_many_blocks_reason(need as u32, lim.max_num_blocks)))),
                    ..p
                },
                lim,
            );
        } else if need > wm {
            lemma_pending_fold_closed(
                Phase {
                    queue: rest,
                    completed: p.completed.push(
                        with_state(r, StateView::Failed(over_watermark_reason(need as u32, wm as u64))),
                    ),
                    ..p
                },
                lim,
            );
        }
    }
}

/// Law: decode sequences come first: when a step schedules any prefill or
/// pending request, every decode sequence was scheduled or failed in it.
pub proof fn law_decode_first(v: SchedView, lim: Limits)
    requires
        prompts_nonempty(v.prefill),
        pending_prompts_nonempty(v.pending),
        schedule_phases(v, lim).1.out.len() + schedule_phases(v, lim).2.out.len() > 0,
    ensures
        ({
            let p1 = schedule_phases(v, lim).0;
            p1.out.len() + (p1.completed.len() - v.completed.len()) == v.decode.len()
        }),
{
    let (p1, p2, p3) = schedule_phases(v, lim);
    lemma_decode_fold_handles(start_phase(v), v.decode, lim);
    if p1.num >= lim.max_batch_size || p1.total + 1 > lim.max_total_tokens {
        let p2s = Phase { out: Seq::empty(), kept: Seq::empty(), ..p1 };
        lemma_prefill_fold_closed(p2s, v.prefill, lim);
        let p3s = Phase { out: Seq::empty(), kept: Seq::empty(), queue: v.pending, ..p2 };
        if !under_pressure(v.free.len(), lim.max_num_blocks as nat, lim.memory_threshold) {
            lemma_pending_fold_closed(p3s, lim);
        }
        assert(false);
    }
}

/// Every active sequence is in exactly one of the prefill and decode queues.
pub proof fn law_one_queue(v: SchedView, lim: Limits, id: SeqId)
    requires
        sched_inv(v, lim),
        active_ids(v).contains(id),
    ensures
        seq_ids(v.prefill).contains(id) != seq_ids(v.decode).contains(id),
{
    lemma_ids_parts(v);
    let p = seq_ids(v.prefill);
    let d = seq_ids(v.decode);
    assert((p + d).contains(id));
    let x = choose|x: int| 0 <= x < (p + d).len() && (p + d)[x] == id;
    if x < p.len() {
        assert(p[x] == id);
    } else {
        assert(d[x - p.len()] == id);
    }
}

/// The prompt total of a concatenation is the sum of the parts'.
pub proof fn lemma_prompt_total_append(a: Seq<SequenceView>, b: Seq<SequenceView>)
    ensures
        prompt_total(a + b) == prompt_total(a) + prompt_total(b),
    decreases b.len(),
{
    if b.len() == 0 {
        assert(a + b =~= a);
    } else {
        assert((a + b).drop_last() =~= a + b.drop_last());
        lemma_prompt_total_append(a, b.drop_last());
    }
}

/// Every sequence of `ss` has a context length that fits a `u32`.
pub open spec fn all_fit(ss: Seq<SequenceView>) -> bool {
    forall|i: int| 0 <= i < ss.len() ==> context_fits(#[trigger] ss[i])
}

/// The decode phase schedules one token per sequence it schedules, and each
/// of them has a context that fits.
proof fn lemma_decode_fold_out(p: Phase, ds: Seq<SequenceView>, lim: Limits)
    requires
        all_fit(p.out),
        all_fit(ds),
    ensures
        decode_fold(p, ds, lim).total - decode_fold(p, ds, lim).out.len() == p.total - p.out.len(),
        all_fit(decode_fold(p, ds, lim).out),
    decreases ds.len(),
{
    if ds.len() > 0 && !(p.num >= lim.max_batch_size || p.total + 1 > lim.max_total_tokens) {
        let d = ds[0];
        assert(context_fits(ds[0]));
        let need = ceil_div(d.context_len() + 1, lim.block_size as int);
        let next = if need > d.blocks.len() {
            if p.free.len() == 0 {
                fail_active(p, d, kv_fail_reason())
            } else {
                let g = grow(d, p.free[0]);
                Phase {
                    free: p.free.drop_first(),
                    tables: p.tables.insert(d.seq_id, p.tables[d.seq_id].push(p.free[0])),
                    total: p.total + 1,
                    num: p.num + 1,
                    out: p.out.push(g),
                    kept: p.kept.push(g),
                    ..p
                }
            }
        } else {
            Phase { total: p.total + 1, num: p.num + 1, out: p.out.push(d), kept: p.kept.push(d), ..p }
        };
        assert(all_fit(next.out)) by {
            assert forall|i: int| 0 <= i < next.out.len() implies context_fits(#[trigger] next.out[i]) by {
                if i < p.out.len() {
                    assert(next.out[i] == p.out[i]);
                }
            }
        }
        assert(all_fit(ds.drop_first())) by {
            assert forall|i: int| 0 <= i < ds.drop_first().len() implies context_fits(#[trigger] ds.drop_first()[i]) by {
                assert(ds.drop_first()[i] == ds[i + 1]);
            }
        }
        lemma_decode_fold_out(next, ds.drop_first(), lim);
    }
}

/// The prefill phase schedules each scheduled sequence's prompt, and each
/// of them has a context that fits.
proof fn lemma_prefill_fold_out(p: Phase, ps: Seq<SequenceView>, lim: Limits)
    requires
        all_fit(p.out),
        all_fit(ps),
    ensures
        prefill_fold(p, ps, lim).total - prompt_total(prefill_fold(p, ps, lim).out) == p.total - prompt_total(p.out),
        all_fit(prefill_fold(p, ps, lim).out),
    decreases ps.len(),
{
    if ps.len() > 0 && p.num < lim.max_batch_size {
        let s = ps[0];
        assert(context_fits(ps[0]));
        let t = s.request.input.len() as u32;
        let need = ceil_div(t as int, lim.block_size as int);
        assert(all_fit(ps.drop_first())) by {
            assert forall|i: int| 0 <= i < ps.drop_first().len() implies context_fits(#[trigger] ps.drop_first()[i]) by {
                assert(ps.drop_first()[i] == ps[i + 1]);
            }
        }
        if t > lim.max_total_tokens {
            lemma_prefill_fold_out(fail_active(p, s, too_many_tokens_reason(t, lim.max_total_tokens)), ps.drop_first(), lim);
        } else if need > lim.max_num_blocks {
            lemma_prefill_fold_out(fail_active(p, s, too_many_blocks_reason(need as u32, lim.max_num_blocks)), ps.drop_first(), lim);
        } else if p.total + t > lim.max_total_tokens {
        } else {
            let next = Phase { total: p.total + t, num: p.num + 1, out: p.out.push(s), kept: p.kept.push(s), ..p };
            assert(next.out.drop_last() =~= p.out);
            assert(all_fit(next.out)) by {
                assert forall|i: int| 0 <= i < next.out.len() implies context_fits(#[trigger] next.out[i]) by {
                    if i < p.out.len() {
                        assert(next.out[i] == p.out[i]);
                    }
                }
            }
            lemma_prefill_fold_out(next, ps.drop_first(), lim);
        }
    }
}

/// The admission phase schedules each started sequence's prompt, and each
/// of them has a context that fits.
proof fn lemma_pending_fold_out(p: Phase, lim: Limits)
    requires
        all_fit(p.out),
    ensures
        pending_fold(p, lim).total - prompt_total(pending_fold(p, lim).out) == p.total - prompt_total(p.out),
        all_fit(pending_fold(p, lim).out),
    decreases p.queue.len(),
{
    if p.queue.len() > 0 && p.num < lim.max_batch_size {
        let id = p.queue[0].0;
        let r = p.queue[0].1;
        let t = r.input.len() as u32;
        let rest = p.queue.drop_first();
        let need = ceil_div(t as int, lim.block_size as int);
        if t > lim.max_total_tokens {
            lemma_pending_fold_out(
                Phase {
                    queue: rest,
                    completed: p.completed.push(with_state(r, StateView::Failed(too_many_tokens_reason(t, lim.max_total_tokens)))),
                    ..p
                },
                lim,
            );
        } else if need > lim.max_num_blocks {
            lemma_pending_fold_out(
                Phase {
                    queue: rest,
                    completed: p.completed.push(with_state(r, StateView::Failed(too_many_blocks_reason(need as u32, lim.max_num_blocks)))),
                    ..p
                },
                lim,
            );
        } else if need > watermark_blocks(lim.max_num_blocks, lim.memory_threshold) {
            lemma_pending_fold_out(
                Phase {
                    queue: rest,
                    completed: p.completed.push(
                        with_state(
                            r,
                            StateView::Failed(
                                over_watermark_reason(
                                    need as u32,
                                    watermark_blocks(lim.max_num_blocks, lim.memory_threshold) as u64,
                                ),
                            ),
                        ),
                    ),
                    ..p
                },
                lim,
            );
        } else if p.total + t > lim.max_total_tokens || p.free.len() < need || lim.max_num_blocks - p.free.len()
            + need > watermark_blocks(lim.max_num_blocks, lim.memory_threshold) {
        } else {
            let st = started(id, r, p.free.take(need));
            let next = Phase {
                queue: rest,
                free: p.free.skip(need),
                tables: p.tables.insert(id, p.free.take(need)),
                total: p.total + t,
                num: p.num + 1,
                out: p.out.push(st),
                kept: p.kept.push(st),
                ..p
            };
            assert(next.out.drop_last() =~= p.out);
            assert(all_fit(next.out)) by {
                assert forall|i: int| 0 <= i < next.out.len() implies context_fits(#[trigger] next.out[i]) by {
                    if i < p.out.len() {
                        assert(next.out[i] == p.out[i]);
                    }
                }
            }
            lemma_pending_fold_out(next, lim);
        }
    }
}

/// The token count of a step is the scheduled prompts' lengths plus one per
/// scheduled decode sequence, and every scheduled sequence has a context
/// that fits.
pub proof fn lemma_schedule_out(v: SchedView, lim: Limits)
    requires
        sched_inv(v, lim),
    ensures
        ({
            let (p1, p2, p3) = schedule_phases(v, lim);
            &&& p3.total == prompt_total(p2.out + p3.out) + p1.out.len()
            &&& all_fit(p1.out)
            &&& all_fit(p2.out + p3.out)
        }),
{
    let (p1, p2, p3) = schedule_phases(v, lim);
    assert(all_fit(Seq::<SequenceView>::empty()));
    assert(all_fit(v.decode)) by {
        assert forall|i: int| 0 <= i < v.decode.len() implies context_fits(#[trigger] v.decode[i]) by {
            assert(blocks_match(v.decode[i], v.tables) && decode_during(v.decode[i], lim, Seq::empty(), 0));
        }
    }
    assert(all_fit(v.prefill)) by {
        assert forall|i: int| 0 <= i < v.prefill.len() implies context_fits(#[trigger] v.prefill[i]) by {
            assert(blocks_match(v.prefill[i], v.tables) && prefill_ok(v.prefill[i]));
        }
    }
    lemma_decode_fold_out(start_phase(v), v.decode, lim);
    lemma_prefill_fold_out(Phase { out: Seq::empty(), kept: Seq::empty(), ..p1 }, v.prefill, lim);
    let p3s = Phase { out: Seq::empty(), kept: Seq::empty(), queue: v.pending, ..p2 };
    lemma_pending_fold_out(p3s, lim);
    lemma_prompt_total_append(p2.out, p3.out);
    assert(all_fit(p2.out + p3.out)) by {
        assert forall|i: int| 0 <= i < (p2.out + p3.out).len() implies context_fits(#[trigger] (p2.out + p3.out)[i]) by {
            if i < p2.out.len() {
                assert((p2.out + p3.out)[i] == p2.out[i]);
            } else {
                assert((p2.out + p3.out)[i] == p3.out[i - p2.out.len()]);
            }
        }
    }
}

/// What a phase schedules stays in the queue it keeps.
pub open spec fn out_kept(p: Phase) -> bool {
    forall|i: int| 0 <= i < p.out.len() ==> p.kept.contains(#[trigger] p.out[i])
}

/// The decode phase keeps what it schedules.
proof fn lemma_decode_fold_kept(p: Phase, ds: Seq<SequenceView>, lim: Limits)
    requires
        out_kept(p),
    ensures
        out_kept(decode_fold(p, ds, lim)),
    decreases ds.len(),
{
    if ds.len() > 0 {
        if p.num >= lim.max_batch_size || p.total + 1 > lim.max_total_tokens {
            let q = Phase { kept: p.kept + ds, ..p };
            assert forall|i: int| 0 <= i < q.out.len() implies q.kept.contains(#[trigger] q.out[i]) by {
                let k = choose|k: int| 0 <= k < p.kept.len() && p.kept[k] == p.out[i];
                assert(q.kept[k] == p.out[i]);
            }
        } else {
            let d = ds[0];
            let need = ceil_div(d.context_len() + 1, lim.block_size as int);
            let next = if need > d.blocks.len() {
                if p.free.len() == 0 {
                    fail_active(p, d, kv_fail_reason())
                } else {
                    let g = grow(d, p.free[0]);
                    Phase {
                        free: p.free.drop_first(),
                        tables: p.tables.insert(d.seq_id, p.tables[d.seq_id].push(p.free[0])),
                        total: p.total + 1,
                        num: p.num + 1,
                        out: p.out.push(g),
                        kept: p.kept.push(g),
                        ..p
                    }
                }
            } else {
                Phase { total: p.total + 1, num: p.num + 1, out: p.out.push(d), kept: p.kept.push(d), ..p }
            };
            if next.out.len() > p.out.len() {
                assert(next.out.drop_last() =~= p.out);
            }
            lemma_push_kept(p, next);
            lemma_decode_fold_kept(next, ds.drop_first(), lim);
        }
    }
}

/// A phase that pushes the same sequence to both lists, or neither, keeps
/// what it schedules.
proof fn lemma_push_kept(p: Phase, next: Phase)
    requires
        out_kept(p),
        (next.out == p.out && next.kept == p.kept) || (next.out.len() == p.out.len() + 1
            && next.out.drop_last() == p.out && next.kept == p.kept.push(next.out.last())),
    ensures
        out_kept(next),
{
    if next.out.len() == p.out.len() + 1 && next.out.drop_last() == p.out && next.kept == p.kept.push(next.out.last()) {
        assert forall|i: int| 0 <= i < next.out.len() implies next.kept.contains(#[trigger] next.out[i]) by {
            if i < p.out.len() {
                assert(next.out[i] == p.out[i]);
                let k = choose|k: int| 0 <= k < p.kept.len() && p.kept[k] == p.out[i];
                assert(next.kept[k] == p.out[i]);
            } else {
                assert(next.kept[p.kept.len() as int] == next.out[i]);
            }
        }
    }
}

/// The prefill phase keeps what it schedules.
proof fn lemma_prefill_fold_kept(p: Phase, ps: Seq<SequenceView>, lim: Limits)
    requires
        out_kept(p),
    ensures
        out_kept(prefill_fold(p, ps, lim)),
    decreases ps.len(),
{
    if ps.len() > 0 {
        let s = ps[0];
        let t = s.request.input.len() as u32;
        let need = ceil_div(t as int, lim.block_size as int);
        if p.num >= lim.max_batch_size || (t <= lim.max_total_tokens && need <= lim.max_num_blocks && p.total + t
            > lim.max_total_tokens) {
            let q = Phase { kept: p.kept + ps, ..p };
            assert forall|i: int| 0 <= i < q.out.len() implies q.kept.contains(#[trigger] q.out[i]) by {
                let k = choose|k: int| 0 <= k < p.kept.len() && p.kept[k] == p.out[i];
                assert(q.kept[k] == p.out[i]);
            }
        } else if t > lim.max_total_tokens {
            lemma_prefill_fold_kept(fail_active(p, s, too_many_tokens_reason(t, lim.max_total_tokens)), ps.drop_first(), lim);
        } else if need > lim.max_num_blocks {
            lemma_prefill_fold_kept(fail_active(p, s, too_many_blocks_reason(need as u32, lim.max_num_blocks)), ps.drop_first(), lim);
        } else {
            let next = Phase { total: p.total + t, num: p.num + 1, out: p.out.push(s), kept: p.kept.push(s), ..p };
            assert(next.out.drop_last() =~= p.out);
            lemma_push_kept(p, next);
            lemma_prefill_fold_kept(next, ps.drop_first(), lim);
        }
    }
}

/// The admission phase keeps what it schedules.
proof fn lemma_pending_fold_kept(p: Phase, lim: Limits)
    requires
        out_kept(p),
    ensures
        out_kept(pending_fold(p, lim)),
    decreases p.queue.len(),
{
    if p.queue.len() > 0 && p.num < lim.max_batch_size {
        let id = p.queue[0].0;
        let r = p.queue[0].1;
        let t = r.input.len() as u32;
        let rest = p.queue.drop_first();
        let need = ceil_div(t as int, lim.block_size as int);
        let wm = watermark_blocks(lim.max_num_blocks, lim.memory_threshold);
        if t > lim.max_total_tokens {
            lemma_pending_fold_kept(
                Phase {
                    queue: rest,
                    completed: p.completed.push(with_state(r, StateView::Failed(too_many_tokens_reason(t, lim.max_total_tokens)))),
                    ..p
                },
                lim,
            );
        } else if need > lim.max_num_blocks {
            lemma_pending_fold_kept(
                Phase {
                    queue: rest,
                    completed: p.completed.push(with_state(r, StateView::Failed(too_many_blocks_reason(need as u32, lim.max_num_blocks)))),
                    ..p
                },
                lim,
            );
        } else if need > wm {
            lemma_pending_fold_kept(
                Phase {
                    queue: rest,
                    completed: p.completed.push(with_state(r, StateView::Failed(over_watermark_reason(need as u32, wm as u64)))),
                    ..p
                },
                lim,
            );
        } else if p.total + t > lim.max_total_tokens || p.free.len() < need || lim.max_num_blocks - p.free.len()
            + need > wm {
        } else {
            let st = started(id, r, p.free.take(need));
            let next = Phase {
                queue: rest,
                free: p.free.skip(need),
                tables: p.tables.insert(id, p.free.take(need)),
                total: p.total + t,
                num: p.num + 1,
                out: p.out.push(st),
                kept: p.kept.push(st),
                ..p
            };
            assert(next.out.drop_last() =~= p.out);
            lemma_push_kept(p, next);
            lemma_pending_fold_kept(next, lim);
        }
    }
}

/// Law: every sequence a step schedules stays queued after the step: the
/// decode sequences in the decode queue, the prefill sequences (those
/// already prefilling and those just admitted) in the prefill queue.
pub proof fn law_scheduled_stay_queued(v: SchedView, lim: Limits)
    ensures
        ({
            let (p1, p2, p3) = schedule_phases(v, lim);
            let w = schedule_view(v, lim);
            &&& forall|i: int| 0 <= i < p1.out.len() ==> w.decode.contains(#[trigger] p1.out[i])
            &&& forall|i: int|
                0 <= i < (p2.out + p3.out).len() ==> w.prefill.contains(#[trigger] (p2.out + p3.out)[i])
        }),
{
    let (p1, p2, p3) = schedule_phases(v, lim);
    let w = schedule_view(v, lim);
    lemma_decode_fold_kept(start_phase(v), v.decode, lim);
    let p2s = Phase { out: Seq::empty(), kept: Seq::empty(), ..p1 };
    lemma_prefill_fold_kept(p2s, v.prefill, lim);
    let p3s = Phase { out: Seq::empty(), kept: Seq::empty(), queue: v.pending, ..p2 };
    lemma_pending_fold_kept(p3s, lim);
    assert forall|i: int| 0 <= i < (p2.out + p3.out).len() implies w.prefill.contains(
        #[trigger] (p2.out + p3.out)[i],
    ) by {
        if i < p2.out.len() {
            assert((p2.out + p3.out)[i] == p2.out[i]);
            let k = choose|k: int| 0 <= k < p2.kept.len() && p2.kept[k] == p2.out[i];
            assert(w.prefill[k] == p2.out[i]);
        } else {
            let j = i - p2.out.len();
            assert((p2.out + p3.out)[i] == p3.out[j]);
            assert(p3.kept.contains(p3.out[j]));
            let k = choose|k: int| 0 <= k < p3.kept.len() && p3.kept[k] == p3.out[j];
            assert(w.prefill[p2.kept.len() + k] == p3.out[j]);
        }
    }
}

/// The ids `out` scheduled so far are distinct and drawn from `allowed`,
/// and the ids `src` still to be visited are distinct, drawn from `allowed`
/// and not yet scheduled.
pub open spec fn fresh_ids(out: Seq<SequenceView>, src: Seq<SeqId>, allowed: Set<SeqId>) -> bool {
    &&& seq_ids(out).no_duplicates()
    &&& src.no_duplicates()
    &&& forall|k: int| 0 <= k < src.len() ==> !seq_ids(out).contains(#[trigger] src[k]) && allowed.contains(src[k])
    &&& forall|j: int| 0 <= j < out.len() ==> allowed.contains(#[trigger] out[j].seq_id)
}

/// Visiting an id without scheduling it keeps the ids fresh.
proof fn lemma_fresh_skip(out: Seq<SequenceView>, src: Seq<SeqId>, allowed: Set<SeqId>)
    requires
        fresh_ids(out, src, allowed),
        src.len() > 0,
    ensures
        fresh_ids(out, src.drop_first(), allowed),
{
    assert forall|k: int| 0 <= k < src.drop_first().len() implies !seq_ids(out).contains(
        #[trigger] src.drop_first()[k],
    ) && allowed.contains(src.drop_first()[k]) by {
        assert(src.drop_first()[k] == src[k + 1]);
    }
    assert forall|a: int, b: int| 0 <= a < b < src.drop_first().len() implies src.drop_first()[a] != src.drop_first()[b] by {
        assert(src.drop_first()[a] == src[a + 1]);
        assert(src.drop_first()[b] == src[b + 1]);
    }
}

/// Scheduling the sequence of the next id keeps the ids fresh.
proof fn lemma_fresh_take(out: Seq<SequenceView>, x: SequenceView, src: Seq<SeqId>, allowed: Set<SeqId>)
    requires
        fresh_ids(out, src, allowed),
        src.len() > 0,
        x.seq_id == src[0],
    ensures
        fresh_ids(out.push(x), src.drop_first(), allowed),
{
    lemma_fresh_skip(out, src, allowed);
    let ids = seq_ids(out);
    assert(seq_ids(out.push(x)) =~= ids.push(x.seq_id));
    assert(!ids.contains(src[0]));
    assert forall|a: int, b: int| 0 <= a < b < ids.push(x.seq_id).len() implies ids.push(x.seq_id)[a] != ids.push(
        x.seq_id,
    )[b] by {
        if b == ids.len() {
            assert(ids.push(x.seq_id)[a] == ids[a]);
        }
    }
    assert forall|k: int| 0 <= k < src.drop_first().len() implies !ids.push(x.seq_id).contains(
        #[trigger] src.drop_first()[k],
    ) by {
        assert(src.drop_first()[k] == src[k + 1]);
        assert(src[k + 1] != src[0]);
        if ids.push(x.seq_id).contains(src[k + 1]) {
            let j = choose|j: int| 0 <= j < ids.push(x.seq_id).len() && ids.push(x.seq_id)[j] == src[k + 1];
            if j < ids.len() {
                assert(ids[j] == src[k + 1]);
            }
        }
    }
    assert forall|j: int| 0 <= j < out.push(x).len() implies allowed.contains(#[trigger] out.push(x)[j].seq_id) by {
        if j < out.len() {
            assert(out.push(x)[j] == out[j]);
        }
    }
}

/// The decode phase schedules distinct ids, drawn from `allowed`.
proof fn lemma_decode_fold_fresh(p: Phase, ds: Seq<SequenceView>, lim: Limits, allowed: Set<SeqId>)
    requires
        fresh_ids(p.out, seq_ids(ds), allowed),
    ensures
        seq_ids(decode_fold(p, ds, lim).out).no_duplicates(),
        forall|j: int|
            0 <= j < decode_fold(p, ds, lim).out.len() ==> allowed.contains(
                #[trigger] decode_fold(p, ds, lim).out[j].seq_id,
            ),
    decreases ds.len(),
{
    if ds.len() > 0 && !(p.num >= lim.max_batch_size || p.total + 1 > lim.max_total_tokens) {
        let d = ds[0];
        let need = ceil_div(d.context_len() + 1, lim.block_size as int);
        assert(seq_ids(ds.drop_first()) =~= seq_ids(ds).drop_first());
        let next = if need > d.blocks.len() {
            if p.free.len() == 0 {
                fail_active(p, d, kv_fail_reason())
            } else {
                let g = grow(d, p.free[0]);
                Phase {
                    free: p.free.drop_first(),
                    tables: p.tables.insert(d.seq_id, p.tables[d.seq_id].push(p.free[0])),
                    total: p.total + 1,
                    num: p.num + 1,
                    out: p.out.push(g),
                    kept: p.kept.push(g),
                    ..p
                }
            }
        } else {
            Phase { total: p.total + 1, num: p.num + 1, out: p.out.push(d), kept: p.kept.push(d), ..p }
        };
        if next.out.len() > p.out.len() {
            lemma_fresh_take(p.out, next.out.last(), seq_ids(ds), allowed);
            assert(next.out =~= p.out.push(next.out.last()));
        } else {
            lemma_fresh_skip(p.out, seq_ids(ds), allowed);
        }
        lemma_decode_fold_fresh(next, ds.drop_first(), lim, allowed);
    }
}

/// The prefill phase schedules distinct ids, drawn from `allowed`.
proof fn lemma_prefill_fold_fresh(p: Phase, ps: Seq<SequenceView>, lim: Limits, allowed: Set<SeqId>)
    requires
        fresh_ids(p.out, seq_ids(ps), allowed),
    ensures
        seq_ids(prefill_fold(p, ps, lim).out).no_duplicates(),
        forall|j: int|
            0 <= j < prefill_fold(p, ps, lim).out.len() ==> allowed.contains(
                #[trigger] prefill_fold(p, ps, lim).out[j].seq_id,
            ),
    decreases ps.len(),
{
    if ps.len() > 0 && p.num < lim.max_batch_size {
        let s = ps[0];
        let t = s.request.input.len() as u32;
        let need = ceil_div(t as int, lim.block_size as int);
        assert(seq_ids(ps.drop_first()) =~= seq_ids(ps).drop_first());
        if t > lim.max_total_tokens {
            lemma_fresh_skip(p.out, seq_ids(ps), allowed);
            lemma_prefill_fold_fresh(fail_active(p, s, too_many_tokens_reason(t, lim.max_total_tokens)), ps.drop_first(), lim, allowed);
        } else if need > lim.max_num_blocks {
            lemma_fresh_skip(p.out, seq_ids(ps), allowed);
            lemma_prefill_fold_fresh(fail_active(p, s, too_many_blocks_reason(need as u32, lim.max_num_blocks)), ps.drop_first(), lim, allowed);
        } else if p.total + t > lim.max_total_tokens {
        } else {
            let next = Phase { total: p.total + t, num: p.num + 1, out: p.out.push(s), kept: p.kept.push(s), ..p };
            lemma_fresh_take(p.out, s, seq_ids(ps), allowed);
            lemma_prefill_fold_fresh(next, ps.drop_first(), lim, allowed);
        }
    }
}

/// The admission phase schedules distinct ids, drawn from `allowed`.
proof fn lemma_pending_fold_fresh(p: Phase, lim: Limits, allowed: Set<SeqId>)
    requires
        fresh_ids(p.out, pending_ids(p.queue), allowed),
    ensures
        seq_ids(pending_fold(p, lim).out).no_duplicates(),
        forall|j: int|
            0 <= j < pending_fold(p, lim).out.len() ==> allowed.contains(#[trigger] pending_fold(p, lim).out[j].seq_id),
    decreases p.queue.len(),
{
    if p.queue.len() > 0 && p.num < lim.max_batch_size {
        let id = p.queue[0].0;
        let r = p.queue[0].1;
        let t = r.input.len() as u32;
        let rest = p.queue.drop_first();
        let need = ceil_div(t as int, lim.block_size as int);
        let wm = watermark_blocks(lim.max_num_blocks, lim.memory_threshold);
        assert(pending_ids(rest) =~= pending_ids(p.queue).drop_first());
        if t > lim.max_total_tokens {
            lemma_fresh_skip(p.out, pending_ids(p.queue), allowed);
            lemma_pending_fold_fresh(
                Phase {
                    queue: rest,
                    completed: p.completed.push(with_state(r, StateView::Failed(too_many_tokens_reason(t, lim.max_total_tokens)))),
                    ..p
                },
                lim,
                allowed,
            );
        } else if need > lim.max_num_blocks {
            lemma_fresh_skip(p.out, pending_ids(p.queue), allowed);
            lemma_pending_fold_fresh(
                Phase {
                    queue: rest,
                    completed: p.completed.push(with_state(r, StateView::Failed(too_many_blocks_reason(need as u32, lim.max_num_blocks)))),
                    ..p
                },
                lim,
                allowed,
            );
        } else if need > wm {
            lemma_fresh_skip(p.out, pending_ids(p.queue), allowed);
            lemma_pending_fold_fresh(
                Phase {
                    queue: rest,
                    completed: p.completed.push(with_state(r, StateView::Failed(over_watermark_reason(need as u32, wm as u64)))),
                    ..p
                },
                lim,
                allowed,
            );
        } else if p.total + t > lim.max_total_tokens || p.free.len() < need || lim.max_num_blocks - p.free.len()
            + need > wm {
        } else {
            let st = started(id, r, p.free.take(need));
            let next = Phase {
                queue: rest,
                free: p.free.skip(need),
                tables: p.tables.insert(id, p.free.take(need)),
                total: p.total + t,
                num: p.num + 1,
                out: p.out.push(st),
                kept: p.kept.push(st),
                ..p
            };
            lemma_fresh_take(p.out, st, pending_ids(p.queue), allowed);
            lemma_pending_fold_fresh(next, lim, allowed);
        }
    }
}

/// Nothing is scheduled yet from `src`, whose ids are distinct.
proof fn lemma_fresh_start(src: Seq<SeqId>)
    requires
        src.no_duplicates(),
    ensures
        fresh_ids(Seq::empty(), src, src.to_set()),
{
    assert(seq_ids(Seq::<SequenceView>::empty()) =~= Seq::<SeqId>::empty());
    assert forall|k: int| 0 <= k < src.len() implies src.to_set().contains(#[trigger] src[k]) by {
        assert(src.contains(src[k]));
    }
}

/// Law: the sequences a step schedules have distinct ids: no sequence runs
/// twice in one batch.
pub proof fn law_scheduled_ids_distinct(v: SchedView, lim: Limits)
    requires
        sched_inv(v, lim),
    ensures
        ({
            let (p1, p2, p3) = schedule_phases(v, lim);
            seq_ids(p1.out + (p2.out + p3.out)).no_duplicates()
        }),
{
    let (p1, p2, p3) = schedule_phases(v, lim);
    lemma_ids_parts(v);
    let dd = seq_ids(v.decode);
    let pp = seq_ids(v.prefill);
    let qq = pending_ids(v.pending);
    lemma_fresh_start(dd);
    lemma_decode_fold_fresh(start_phase(v), v.decode, lim, dd.to_set());
    lemma_fresh_start(pp);
    lemma_prefill_fold_fresh(Phase { out: Seq::empty(), kept: Seq::empty(), ..p1 }, v.prefill, lim, pp.to_set());
    let p3s = Phase { out: Seq::empty(), kept: Seq::empty(), queue: v.pending, ..p2 };
    lemma_fresh_start(qq);
    lemma_pending_fold_fresh(p3s, lim, qq.to_set());
    let all = p1.out + (p2.out + p3.out);
    let ids = seq_ids(all);
    assert forall|a: int, b: int| 0 <= a < b < ids.len() implies ids[a] != ids[b] by {
        let n1 = p1.out.len() as int;
        let n2 = p2.out.len() as int;
        let src = |i: int| if i < n1 { 0int } else if i < n1 + n2 { 1int } else { 2int };
        let elt = |i: int| if i < n1 { p1.out[i] } else if i < n1 + n2 { p2.out[i - n1] } else { p3.out[i - n1 - n2] };
        assert(all[a] == elt(a));
        assert(all[b] == elt(b));
        if src(a) == src(b) {
            if src(a) == 0 {
                assert(seq_ids(p1.out)[a] == ids[a]);
                assert(seq_ids(p1.out)[b] == ids[b]);
            } else if src(a) == 1 {
                assert(seq_ids(p2.out)[a - n1] == ids[a]);
                assert(seq_ids(p2.out)[b - n1] == ids[b]);
            } else {
                assert(seq_ids(p3.out)[a - n1 - n2] == ids[a]);
                assert(seq_ids(p3.out)[b - n1 - n2] == ids[b]);
            }
        } else {
            let x = elt(a).seq_id;
            let y = elt(b).seq_id;
            if src(a) == 0 {
                assert(dd.to_set().contains(x));
                assert(dd.contains(x));
            } else {
                assert(pp.to_set().contains(x));
                assert(pp.contains(x));
            }
            if src(b) == 1 {
                assert(pp.to_set().contains(y));
                assert(pp.contains(y));
            } else {
                assert(qq.to_set().contains(y));
                assert(qq.contains(y));
            }
        }
    }
}

/// The request ids of sequences, in order.
pub open spec fn seq_rids(ss: Seq<SequenceView>) -> Seq<RequestId> {
    ss.map_values(|s: SequenceView| s.request.id)
}

/// The request ids of pending entries, in order.
pub open spec fn pending_rids(ps: Seq<(SeqId, RequestView)>) -> Seq<RequestId> {
    ps.map_values(|p: (SeqId, RequestView)| p.1.id)
}

/// The ids of requests, in order.
pub open spec fn done_rids(rs: Seq<RequestView>) -> Seq<RequestId> {
    rs.map_values(|r: RequestView| r.id)
}

/// Every request the scheduler holds, by id and counted with multiplicity:
/// pending, prefilling, decoding and finished.
pub open spec fn held_requests(v: SchedView) -> Multiset<RequestId> {
    pending_rids(v.pending).to_multiset().add(seq_rids(v.prefill).to_multiset()).add(
        seq_rids(v.decode).to_multiset(),
    ).add(done_rids(v.completed).to_multiset())
}

/// Removing the entry at `i` and pushing `x` onto another list.
proof fn lemma_rids_remove_push<A>(s: Seq<A>, i: int, f: spec_fn(A) -> RequestId)
    requires
        0 <= i < s.len(),
    ensures
        s.remove(i).map_values(f).to_multiset() == s.map_values(f).to_multiset().remove(f(s[i])),
        s.map_values(f).to_multiset().count(f(s[i])) > 0,
{
    broadcast use vstd::seq_lib::group_to_multiset_ensures;

    assert(s.remove(i).map_values(f) =~= s.map_values(f).remove(i));
    assert(s.map_values(f)[i] == f(s[i]));
    assert(s.map_values(f).contains(f(s[i])));
}

proof fn lemma_done_push(rs: Seq<RequestView>, r: RequestView)
    ensures
        done_rids(rs.push(r)).to_multiset() == done_rids(rs).to_multiset().insert(r.id),
{
    broadcast use vstd::seq_lib::group_to_multiset_ensures;

    assert(done_rids(rs.push(r)) =~= done_rids(rs).push(r.id));
}

/// Failing a sequence keeps every request held: it moves to the finished ones.
pub proof fn lemma_fail_view_held(v: SchedView, id: SeqId, reason: Seq<char>)
    ensures
        held_requests(fail_view(v, id, reason)) == held_requests(v),
{
    broadcast use vstd::multiset::group_multiset_axioms;

    let di = position(seq_ids(v.decode), id);
    let pi = position(seq_ids(v.prefill), id);
    let qi = position(pending_ids(v.pending), id);
    let w = fail_view(v, id, reason);
    if di >= 0 {
        lemma_rids_remove_push(v.decode, di, |s: SequenceView| s.request.id);
        lemma_done_push(v.completed, with_state(v.decode[di].request, StateView::Failed(reason)));
        assert(held_requests(w) =~= held_requests(v));
    } else if pi >= 0 {
        lemma_rids_remove_push(v.prefill, pi, |s: SequenceView| s.request.id);
        lemma_done_push(v.completed, with_state(v.prefill[pi].request, StateView::Failed(reason)));
        assert(held_requests(w) =~= held_requests(v));
    } else if qi >= 0 {
        lemma_rids_remove_push(v.pending, qi, |p: (SeqId, RequestView)| p.1.id);
        lemma_done_push(v.completed, with_state(v.pending[qi].1, StateView::Failed(reason)));
        assert(held_requests(w) =~= held_requests(v));
    }
}

/// Completing a sequence keeps every request held: it moves to the finished ones.
pub proof fn lemma_complete_view_held(v: SchedView, id: SeqId)
    ensures
        held_requests(complete_view(v, id)) == held_requests(v),
{
    broadcast use vstd::multiset::group_multiset_axioms;

    let di = position(seq_ids(v.decode), id);
    let pi = position(seq_ids(v.prefill), id);
    let w = complete_view(v, id);
    if di >= 0 {
        lemma_rids_remove_push(v.decode, di, |s: SequenceView| s.request.id);
        lemma_done_push(v.completed, with_state(v.decode[di].request, StateView::Completed));
        assert(held_requests(w) =~= held_requests(v));
    } else if pi >= 0 {
        lemma_rids_remove_push(v.prefill, pi, |s: SequenceView| s.request.id);
        lemma_done_push(v.completed, with_state(v.prefill[pi].request, StateView::Completed));
        assert(held_requests(w) =~= held_requests(v));
    }
}

/// Failing several sequences keeps every request held.
pub proof fn lemma_fail_all_view_held(v: SchedView, ids: Seq<SeqId>, reason: Seq<char>)
    ensures
        held_requests(fail_all_view(v, ids, reason)) == held_requests(v),
    decreases ids.len(),
{
    if ids.len() > 0 {
        lemma_fail_view_held(v, ids[0], reason);
        lemma_fail_all_view_held(fail_view(v, ids[0], reason), ids.drop_first(), reason);
    }
}

/// Completing several sequences keeps every request held.
proof fn lemma_complete_all_held(v: SchedView, ids: Seq<SeqId>)
    ensures
        held_requests(complete_all(v, ids)) == held_requests(v),
    decreases ids.len(),
{
    if ids.len() > 0 {
        lemma_complete_view_held(v, ids[0]);
        lemma_complete_all_held(complete_view(v, ids[0]), ids.drop_first());
    }
}

/// Recording one output entry keeps every request held.
proof fn lemma_record_one_held(v: SchedView, due: Seq<SeqId>, id: SeqId, tok: TokenId, eos: TokenId, lim: Limits)
    ensures
        held_requests(record_one(v, due, id, tok, eos, lim).0) == held_requests(v),
{
    broadcast use vstd::multiset::group_multiset_axioms;
    broadcast use vstd::seq_lib::group_to_multiset_ensures;

    let f = |s: SequenceView| s.request.id;
    let pi = position(seq_ids(v.prefill), id);
    let v1 = if pi >= 0 {
        SchedView { prefill: v.prefill.remove(pi), decode: v.decode.push(to_decode(v.prefill[pi])), ..v }
    } else {
        v
    };
    if pi >= 0 {
        lemma_rids_remove_push(v.prefill, pi, f);
        assert(seq_rids(v.decode.push(to_decode(v.prefill[pi]))) =~= seq_rids(v.decode).push(v.prefill[pi].request.id));
        assert(held_requests(v1) =~= held_requests(v));
    }
    let di = position(seq_ids(v1.decode), id);
    if di >= 0 {
        let x = with_token(v1.decode[di], tok);
        assert(seq_rids(v1.decode.update(di, x)) =~= seq_rids(v1.decode).update(di, x.request.id));
        assert(seq_rids(v1.decode)[di] == x.request.id);
        assert(seq_rids(v1.decode).to_multiset().insert(x.request.id).remove(x.request.id) =~= seq_rids(
            v1.decode,
        ).to_multiset());
        let w = record_one(v, due, id, tok, eos, lim).0;
        assert(held_requests(w) =~= held_requests(v1));
    }
}

/// Recording output entries keeps every request held.
proof fn lemma_record_from_held(
    v: SchedView,
    due: Seq<SeqId>,
    ids: Seq<SeqId>,
    toks: Seq<TokenId>,
    i: int,
    eos: TokenId,
    lim: Limits,
)
    ensures
        held_requests(record_from(v, due, ids, toks, i, eos, lim).0) == held_requests(v),
    decreases ids.len() - i,
{
    if 0 <= i < ids.len() {
        let (w, d2) = record_one(v, due, ids[i], token_for(toks, i), eos, lim);
        lemma_record_one_held(v, due, ids[i], token_for(toks, i), eos, lim);
        lemma_record_from_held(w, d2, ids, toks, i + 1, eos, lim);
    }
}

/// Recording an execution's output keeps every request held.
pub proof fn lemma_update_view_held(v: SchedView, ids: Seq<SeqId>, toks: Seq<TokenId>, eos: TokenId, lim: Limits)
    ensures
        held_requests(update_view(v, ids, toks, eos, lim)) == held_requests(v),
{
    let (w, due) = record_from(v, Seq::empty(), ids, toks, 0, eos, lim);
    lemma_record_from_held(v, Seq::empty(), ids, toks, 0, eos, lim);
    lemma_complete_all_held(w, due);
}

/// The requests a phase holds: finished, kept in its queue, and still pending.
pub open spec fn phase_held(p: Phase) -> Multiset<RequestId> {
    done_rids(p.completed).to_multiset().add(seq_rids(p.kept).to_multiset()).add(pending_rids(p.queue).to_multiset())
}

/// Taking the first of a list: its multiset is the rest's with the first added.
proof fn lemma_rids_first<A>(s: Seq<A>, f: spec_fn(A) -> RequestId)
    requires
        s.len() > 0,
    ensures
        s.map_values(f).to_multiset() == s.drop_first().map_values(f).to_multiset().insert(f(s[0])),
{
    broadcast use vstd::multiset::group_multiset_axioms;

    lemma_rids_remove_push(s, 0, f);
    assert(s.remove(0) =~= s.drop_first());
    assert(s.map_values(f).to_multiset() =~= s.drop_first().map_values(f).to_multiset().insert(f(s[0])));
}

/// A list appended to another: the multisets add.
proof fn lemma_rids_append<A>(a: Seq<A>, b: Seq<A>, f: spec_fn(A) -> RequestId)
    ensures
        (a + b).map_values(f).to_multiset() == a.map_values(f).to_multiset().add(b.map_values(f).to_multiset()),
{
    assert((a + b).map_values(f) =~= a.map_values(f) + b.map_values(f));
    vstd::seq_lib::lemma_multiset_commutative(a.map_values(f), b.map_values(f));
}

/// A list with one more entry: its multiset has one more id.
proof fn lemma_rids_push<A>(a: Seq<A>, x: A, f: spec_fn(A) -> RequestId)
    ensures
        a.push(x).map_values(f).to_multiset() == a.map_values(f).to_multiset().insert(f(x)),
{
    broadcast use vstd::seq_lib::group_to_multiset_ensures;

    assert(a.push(x).map_values(f) =~= a.map_values(f).push(f(x)));
}

/// The decode phase keeps every request it visits: each is kept or finished.
proof fn lemma_decode_fold_held(p: Phase, ds: Seq<SequenceView>, lim: Limits)
    ensures
        phase_held(decode_fold(p, ds, lim)) == phase_held(p).add(seq_rids(ds).to_multiset()),
    decreases ds.len(),
{
    broadcast use vstd::multiset::group_multiset_axioms;

    let f = |s: SequenceView| s.request.id;
    let g = |r: RequestView| r.id;
    if ds.len() == 0 {
        lemma_rids_empty(ds, f);
        assert(phase_held(p).add(seq_rids(ds).to_multiset()) =~= phase_held(p));
    } else if p.num >= lim.max_batch_size || p.total + 1 > lim.max_total_tokens {
        lemma_rids_append(p.kept, ds, f);
        assert(phase_held(decode_fold(p, ds, lim)) =~= phase_held(p).add(seq_rids(ds).to_multiset()));
    } else {
        let d = ds[0];
        let need = ceil_div(d.context_len() + 1, lim.block_size as int);
        let next = if need > d.blocks.len() {
            if p.free.len() == 0 {
                fail_active(p, d, kv_fail_reason())
            } else {
                let gr = grow(d, p.free[0]);
                Phase {
                    free: p.free.drop_first(),
                    tables: p.tables.insert(d.seq_id, p.tables[d.seq_id].push(p.free[0])),
                    total: p.total + 1,
                    num: p.num + 1,
                    out: p.out.push(gr),
                    kept: p.kept.push(gr),
                    ..p
                }
            }
        } else {
            Phase { total: p.total + 1, num: p.num + 1, out: p.out.push(d), kept: p.kept.push(d), ..p }
        };
        lemma_rids_first(ds, f);
        assert(seq_rids(ds.drop_first()) == ds.drop_first().map_values(f));
        if need > d.blocks.len() && p.free.len() == 0 {
            lemma_rids_push(p.completed, with_state(d.request, StateView::Failed(kv_fail_reason())), g);
        } else {
            lemma_rids_push(p.kept, next.kept.last(), f);
            assert(next.kept =~= p.kept.push(next.kept.last()));
        }
        assert(phase_held(next) =~= phase_held(p).insert(d.request.id));
        lemma_decode_fold_held(next, ds.drop_first(), lim);
        assert(phase_held(decode_fold(p, ds, lim)) =~= phase_held(p).add(seq_rids(ds).to_multiset()));
    }
}

/// An empty list has no ids.
proof fn lemma_rids_empty<A>(s: Seq<A>, f: spec_fn(A) -> RequestId)
    requires
        s.len() == 0,
    ensures
        s.map_values(f).to_multiset() == Multiset::<RequestId>::empty(),
{
    broadcast use vstd::seq_lib::group_to_multiset_ensures;
    broadcast use vstd::multiset::group_multiset_properties;

    assert(s.map_values(f).len() == 0);
    assert(s.map_values(f).to_multiset().len() == 0);
}

/// The prefill phase keeps every request it visits: each is kept or finished.
proof fn lemma_prefill_fold_held(p: Phase, ps: Seq<SequenceView>, lim: Limits)
    ensures
        phase_held(prefill_fold(p, ps, lim)) == phase_held(p).add(seq_rids(ps).to_multiset()),
    decreases ps.len(),
{
    broadcast use vstd::multiset::group_multiset_axioms;

    let f = |s: SequenceView| s.request.id;
    let g = |r: RequestView| r.id;
    if ps.len() == 0 {
        lemma_rids_empty(ps, f);
        assert(phase_held(p).add(seq_rids(ps).to_multiset()) =~= phase_held(p));
    } else {
        let s = ps[0];
        let t = s.request.input.len() as u32;
        let need = ceil_div(t as int, lim.block_size as int);
        if p.num >= lim.max_batch_size || (t <= lim.max_total_tokens && need <= lim.max_num_blocks && p.total + t
            > lim.max_total_tokens) {
            lemma_rids_append(p.kept, ps, f);
            assert(phase_held(prefill_fold(p, ps, lim)) =~= phase_held(p).add(seq_rids(ps).to_multiset()));
        } else {
            lemma_rids_first(ps, f);
            let next = if t > lim.max_total_tokens {
                fail_active(p, s, too_many_tokens_reason(t, lim.max_total_tokens))
            } else if need > lim.max_num_blocks {
                fail_active(p, s, too_many_blocks_reason(need as u32, lim.max_num_blocks))
            } else {
                Phase { total: p.total + t, num: p.num + 1, out: p.out.push(s), kept: p.kept.push(s), ..p }
            };
            if t > lim.max_total_tokens || need > lim.max_num_blocks {
                lemma_rids_push(p.completed, next.completed.last(), g);
                assert(next.completed =~= p.completed.push(next.completed.last()));
            } else {
                lemma_rids_push(p.kept, s, f);
            }
            assert(phase_held(next) =~= phase_held(p).insert(s.request.id));
            lemma_prefill_fold_held(next, ps.drop_first(), lim);
            assert(phase_held(prefill_fold(p, ps, lim)) =~= phase_held(p).add(seq_rids(ps).to_multiset()));
        }
    }
}

/// The admission phase keeps every pending request: each is kept pending,
/// started or finished.
proof fn lemma_pending_fold_held(p: Phase, lim: Limits)
    ensures
        phase_held(pending_fold(p, lim)) == phase_held(p),
    decreases p.queue.len(),
{
    broadcast use vstd::multiset::group_multiset_axioms;

    let f = |s: SequenceView| s.request.id;
    let g = |r: RequestView| r.id;
    let h = |q: (SeqId, RequestView)| q.1.id;
    if p.queue.len() > 0 && p.num < lim.max_batch_size {
        let id = p.queue[0].0;
        let r = p.queue[0].1;
        let t = r.input.len() as u32;
        let rest = p.queue.drop_first();
        let need = ceil_div(t as int, lim.block_size as int);
        let wm = watermark_blocks(lim.max_num_blocks, lim.memory_threshold);
        if t <= lim.max_total_tokens && need <= lim.max_num_blocks && need <= wm && (p.total + t
            > lim.max_total_tokens || p.free.len() < need || lim.max_num_blocks - p.free.len() + need > wm) {
        } else {
            lemma_rids_first(p.queue, h);
            let next = if t > lim.max_total_tokens {
                Phase {
                    queue: rest,
                    completed: p.completed.push(with_state(r, StateView::Failed(too_many_tokens_reason(t, lim.max_total_tokens)))),
                    ..p
                }
            } else if need > lim.max_num_blocks {
                Phase {
                    queue: rest,
                    completed: p.completed.push(with_state(r, StateView::Failed(too_many_blocks_reason(need as u32, lim.max_num_blocks)))),
                    ..p
                }
            } else if need > wm {
                Phase {
                    queue: rest,
                    completed: p.completed.push(with_state(r, StateView::Failed(over_watermark_reason(need as u32, wm as u64)))),
                    ..p
                }
            } else {
                let st = started(id, r, p.free.take(need));
                Phase {
                    queue: rest,
                    free: p.free.skip(need),
                    tables: p.tables.insert(id, p.free.take(need)),
                    total: p.total + t,
                    num: p.num + 1,
                    out: p.out.push(st),
                    kept: p.kept.push(st),
                    ..p
                }
            };
            if t > lim.max_total_tokens || need > lim.max_num_blocks || need > wm {
                lemma_rids_push(p.completed, next.completed.last(), g);
                assert(next.completed =~= p.completed.push(next.completed.last()));
            } else {
                lemma_rids_push(p.kept, next.kept.last(), f);
                assert(next.kept =~= p.kept.push(next.kept.last()));
            }
            assert(phase_held(next) =~= phase_held(p));
            lemma_pending_fold_held(next, lim);
        }
    }
}

/// Law: a scheduling step keeps every request the scheduler holds: each
/// stays pending, is prefilling or decoding, or has finished.
pub proof fn law_schedule_keeps_requests(v: SchedView, lim: Limits)
    ensures
        held_requests(schedule_view(v, lim)) == held_requests(v),
{
    broadcast use vstd::multiset::group_multiset_axioms;

    let f = |s: SequenceView| s.request.id;
    let h = |q: (SeqId, RequestView)| q.1.id;
    let (p1, p2, p3) = schedule_phases(v, lim);
    let p0 = start_phase(v);
    lemma_rids_empty(p0.kept, f);
    lemma_rids_empty(p0.queue, h);
    lemma_decode_fold_held(p0, v.decode, lim);
    let p2s = Phase { out: Seq::empty(), kept: Seq::empty(), ..p1 };
    lemma_rids_empty(p2s.kept, f);
    lemma_prefill_fold_held(p2s, v.prefill, lim);
    let p3s = Phase { out: Seq::empty(), kept: Seq::empty(), queue: v.pending, ..p2 };
    lemma_rids_empty(p3s.kept, f);
    lemma_pending_fold_held(p3s, lim);
    lemma_rids_append(p2.kept, p3.kept, f);
    assert(p1.queue.len() == 0) by {
        lemma_decode_fold_queue(p0, v.decode, lim);
    }
    assert(p2.queue.len() == 0) by {
        lemma_prefill_fold_queue(p2s, v.prefill, lim);
    }
    lemma_rids_empty(p1.queue, h);
    lemma_rids_empty(p2.queue, h);
    assert(phase_held(p3) == phase_held(p3s));
    assert(phase_held(p1) =~= done_rids(v.completed).to_multiset().add(seq_rids(v.decode).to_multiset()));
    assert(phase_held(p2) =~= done_rids(p1.completed).to_multiset().add(seq_rids(v.prefill).to_multiset()));
    assert(phase_held(p3s) =~= done_rids(p2.completed).to_multiset().add(pending_rids(v.pending).to_multiset()));
    let w = schedule_view(v, lim);
    assert(seq_rids(w.prefill).to_multiset() == seq_rids(p2.kept).to_multiset().add(seq_rids(p3.kept).to_multiset()));
    let a = pending_rids(v.pending).to_multiset();
    let b = seq_rids(v.prefill).to_multiset();
    let c = seq_rids(v.decode).to_multiset();
    let d = done_rids(v.completed).to_multiset();
    let c1 = done_rids(p1.completed).to_multiset();
    let c2 = done_rids(p2.completed).to_multiset();
    let k1 = seq_rids(p1.kept).to_multiset();
    let k2 = seq_rids(p2.kept).to_multiset();
    assert(w.pending == p3.queue && w.decode == p1.kept && w.completed == p3.completed);
    assert forall|x: RequestId| #[trigger] held_requests(w).count(x) == held_requests(v).count(x) by {
        assert(phase_held(p1).count(x) == d.count(x) + c.count(x));
        assert(phase_held(p1).count(x) == c1.count(x) + k1.count(x));
        assert(phase_held(p2).count(x) == c1.count(x) + b.count(x));
        assert(phase_held(p2).count(x) == c2.count(x) + k2.count(x));
        assert(phase_held(p3).count(x) == c2.count(x) + a.count(x));
    }
    assert(held_requests(w) =~= held_requests(v));
}

/// The prefill phase leaves the pending queue alone.
proof fn lemma_prefill_fold_queue(p: Phase, ps: Seq<SequenceView>, lim: Limits)
    ensures
        prefill_fold(p, ps, lim).queue == p.queue,
    decreases ps.len(),
{
    if ps.len() > 0 && p.num < lim.max_batch_size {
        let s = ps[0];
        let t = s.request.input.len() as u32;
        let need = ceil_div(t as int, lim.block_size as int);
        if t > lim.max_total_tokens {
            lemma_prefill_fold_queue(fail_active(p, s, too_many_tokens_reason(t, lim.max_total_tokens)), ps.drop_first(), lim);
        } else if need > lim.max_num_blocks {
            lemma_prefill_fold_queue(fail_active(p, s, too_many_blocks_reason(need as u32, lim.max_num_blocks)), ps.drop_first(), lim);
        } else if p.total + t > lim.max_total_tokens {
        } else {
            lemma_prefill_fold_queue(
                Phase { total: p.total + t, num: p.num + 1, out: p.out.push(s), kept: p.kept.push(s), ..p },
                ps.drop_first(),
                lim,
            );
        }
    }
}

/// Failing every pending request keeps every request held: they move to the
/// finished ones.
pub proof fn lemma_fail_pending_held(v: SchedView, reason: Seq<char>)
    ensures
        held_requests(
            SchedView {
                pending: Seq::empty(),
                completed: v.completed + v.pending.map_values(
                    |p: (SeqId, RequestView)| with_state(p.1, StateView::Failed(reason)),
                ),
                ..v
            },
        ) == held_requests(v),
{
    broadcast use vstd::multiset::group_multiset_axioms;

    let g = |r: RequestView| r.id;
    let h = |q: (SeqId, RequestView)| q.1.id;
    let moved = v.pending.map_values(|p: (SeqId, RequestView)| with_state(p.1, StateView::Failed(reason)));
    let w = SchedView { pending: Seq::empty(), completed: v.completed + moved, ..v };
    lemma_rids_append(v.completed, moved, g);
    assert(moved.map_values(g) =~= pending_rids(v.pending));
    lemma_rids_empty(w.pending, h);
    assert(held_requests(w) =~= held_requests(v));
}

/// The ids of two lists of requests, one after the other.
pub proof fn lemma_done_rids_append(a: Seq<RequestView>, b: Seq<RequestView>)
    ensures
        done_rids(a + b).to_multiset() == done_rids(a).to_multiset().add(done_rids(b).to_multiset()),
{
    lemma_rids_append(a, b, |r: RequestView| r.id);
}

/// Draining the finished requests: what is held is what stays plus what
/// was drained.
pub proof fn lemma_drain_held(v: SchedView)
    ensures
        held_requests(v) == held_requests(SchedView { completed: Seq::empty(), ..v }).add(
            done_rids(v.completed).to_multiset(),
        ),
{
    broadcast use vstd::multiset::group_multiset_axioms;

    lemma_rids_empty(Seq::<RequestView>::empty(), |r: RequestView| r.id);
    assert(held_requests(v) =~= held_requests(SchedView { completed: Seq::empty(), ..v }).add(
        done_rids(v.completed).to_multiset(),
    ));
}

/// A sequence the admission phase starts holds one block per `block_size`
/// tokens of its prompt, rounded up.
pub open spec fn admitted_blocks_ok(s: SequenceView, lim: Limits) -> bool {
    s.blocks.len() == ceil_div((s.request.input.len() as u32) as int, lim.block_size as int)
}

proof fn lemma_pending_fold_blocks(p: Phase, lim: Limits)
    requires
        lim.block_size > 0,
        forall|i: int| 0 <= i < p.out.len() ==> admitted_blocks_ok(#[trigger] p.out[i], lim),
    ensures
        forall|i: int|
            0 <= i < pending_fold(p, lim).out.len() ==> admitted_blocks_ok(#[trigger] pending_fold(p, lim).out[i], lim),
    decreases p.queue.len(),
{
    if p.queue.len() > 0 && p.num < lim.max_batch_size {
        let id = p.queue[0].0;
        let r = p.queue[0].1;
        let t = r.input.len() as u32;
        let rest = p.queue.drop_first();
        let need = ceil_div(t as int, lim.block_size as int);
        let wm = watermark_blocks(lim.max_num_blocks, lim.memory_threshold);
        if t <= lim.max_total_tokens && need <= lim.max_num_blocks && need <= wm && (p.total + t
            > lim.max_total_tokens || p.free.len() < need || lim.max_num_blocks - p.free.len() + need > wm) {
        } else {
            let next = if t > lim.max_total_tokens {
                Phase {
                    queue: rest,
                    completed: p.completed.push(with_state(r, StateView::Failed(too_many_tokens_reason(t, lim.max_total_tokens)))),
                    ..p
                }
            } else if need > lim.max_num_blocks {
                Phase {
                    queue: rest,
                    completed: p.completed.push(with_state(r, StateView::Failed(too_many_blocks_reason(need as u32, lim.max_num_blocks)))),
                    ..p
                }
            } else if need > wm {
                Phase {
                    queue: rest,
                    completed: p.completed.push(with_state(r, StateView::Failed(over_watermark_reason(need as u32, wm as u64)))),
                    ..p
                }
            } else {
                let st = started(id, r, p.free.take(need));
                Phase {
                    queue: rest,
                    free: p.free.skip(need),
                    tables: p.tables.insert(id, p.free.take(need)),
                    total: p.total + t,
                    num: p.num + 1,
                    out: p.out.push(st),
                    kept: p.kept.push(st),
                    ..p
                }
            };
            assert(pending_fold(p, lim) == pending_fold(next, lim));
            if !(t > lim.max_total_tokens || need > lim.max_num_blocks || need > wm) {
                assert(need >= 0) by (nonlinear_arith)
                    requires
                        need == (t as int + lim.block_size as int - 1) / (lim.block_size as int),
                        lim.block_size > 0,
                ;
                assert(admitted_blocks_ok(next.out.last(), lim));
            }
            assert forall|i: int| 0 <= i < next.out.len() implies admitted_blocks_ok(#[trigger] next.out[i], lim) by {
                if i < p.out.len() {
                    assert(next.out[i] == p.out[i]);
                }
            }
            lemma_pending_fold_blocks(next, lim);
        }
    }
}

/// Law: a request a step admits starts its prefill holding exactly the
/// blocks its prompt needs, one per `block_size` tokens rounded up.
pub proof fn law_admitted_blocks(v: SchedView, lim: Limits)
    requires
        lim.block_size > 0,
    ensures
        ({
            let (p1, p2, p3) = schedule_phases(v, lim);
            forall|i: int| 0 <= i < p3.out.len() ==> admitted_blocks_ok(#[trigger] p3.out[i], lim)
        }),
{
    let (p1, p2, p3) = schedule_phases(v, lim);
    let p3s = Phase { out: Seq::empty(), kept: Seq::empty(), queue: v.pending, ..p2 };
    lemma_pending_fold_blocks(p3s, lim);
}

proof fn lemma_decode_fold_room(p: Phase, ds: Seq<SequenceView>, lim: Limits)
    requires
        lim.block_size > 0,
        forall|i: int|
            0 <= i < p.out.len() ==> (#[trigger] p.out[i]).blocks.len() >= ceil_div(
                p.out[i].context_len() + 1,
                lim.block_size as int,
            ),
        forall|j: int|
            0 <= j < ds.len() ==> ceil_div((#[trigger] ds[j]).context_len() + 1, lim.block_size as int)
                <= ds[j].blocks.len() + 1,
    ensures
        forall|i: int|
            0 <= i < decode_fold(p, ds, lim).out.len() ==> (#[trigger] decode_fold(p, ds, lim).out[i]).blocks.len()
                >= ceil_div(decode_fold(p, ds, lim).out[i].context_len() + 1, lim.block_size as int),
    decreases ds.len(),
{
    if ds.len() > 0 && !(p.num >= lim.max_batch_size || p.total + 1 > lim.max_total_tokens) {
        let d = ds[0];
        let need = ceil_div(d.context_len() + 1, lim.block_size as int);
        let next = if need > d.blocks.len() {
            if p.free.len() == 0 {
                fail_active(p, d, kv_fail_reason())
            } else {
                let g = grow(d, p.free[0]);
                Phase {
                    free: p.free.drop_first(),
                    tables: p.tables.insert(d.seq_id, p.tables[d.seq_id].push(p.free[0])),
                    total: p.total + 1,
                    num: p.num + 1,
                    out: p.out.push(g),
                    kept: p.kept.push(g),
                    ..p
                }
            }
        } else {
            Phase { total: p.total + 1, num: p.num + 1, out: p.out.push(d), kept: p.kept.push(d), ..p }
        };
        assert(ceil_div(ds[0].context_len() + 1, lim.block_size as int) <= ds[0].blocks.len() + 1);
        assert forall|i: int| 0 <= i < next.out.len() implies (#[trigger] next.out[i]).blocks.len() >= ceil_div(
            next.out[i].context_len() + 1,
            lim.block_size as int,
        ) by {
            if i < p.out.len() {
                assert(next.out[i] == p.out[i]);
            }
        }
        assert forall|j: int| 0 <= j < ds.drop_first().len() implies ceil_div(
            (#[trigger] ds.drop_first()[j]).context_len() + 1,
            lim.block_size as int,
        ) <= ds.drop_first()[j].blocks.len() + 1 by {
            assert(ds.drop_first()[j] == ds[j + 1]);
        }
        lemma_decode_fold_room(next, ds.drop_first(), lim);
    }
}

/// Law: a decode sequence that a step schedules has room for the token it
/// processes: when every decode sequence lacked at most one block for its
/// next token, each scheduled one holds at least
/// `ceil((context_len + 1) / block_size)` blocks, growing by a block where
/// it needs one.
pub proof fn law_decode_capacity(v: SchedView, lim: Limits)
    requires
        lim.block_size > 0,
        forall|j: int|
            0 <= j < v.decode.len() ==> ceil_div((#[trigger] v.decode[j]).context_len() + 1, lim.block_size as int)
                <= v.decode[j].blocks.len() + 1,
    ensures
        ({
            let (p1, p2, p3) = schedule_phases(v, lim);
            forall|i: int|
                0 <= i < p1.out.len() ==> (#[trigger] p1.out[i]).blocks.len() >= ceil_div(
                    p1.out[i].context_len() + 1,
                    lim.block_size as int,
                )
        }),
{
    lemma_decode_fold_room(start_phase(v), v.decode, lim);
}

/// Law: admission control. With `max_num_seqs` or more sequences active
/// (prefilling or decoding), or under memory pressure, a request is refused
/// with `MemoryPressure` and nothing changes; a request that is accepted gets
/// the next sequence id, joins the back of the pending queue, and came while
/// fewer than `max_num_seqs` sequences were active.
pub proof fn law_admission_control(v: SchedView, lim: Limits, request: RequestView)
    ensures
        v.prefill.len() + v.decode.len() >= lim.max_num_seqs ==> add_request_result(v, lim, request) == (
        Err::<SeqId, SchedulerError>(SchedulerError::MemoryPressure),
        v,
        ),
        under_pressure(v.free.len(), lim.max_num_blocks as nat, lim.memory_threshold) ==> add_request_result(
            v,
            lim,
            request,
        ) == (Err::<SeqId, SchedulerError>(SchedulerError::MemoryPressure), v),
        add_request_result(v, lim, request).0 matches Ok(id) ==> id == v.next_seq_id && v.prefill.len()
            + v.decode.len() < lim.max_num_seqs && add_request_result(v, lim, request).1.pending == v.pending.push(
            (id, request),
        ),
{
}

/// Law: when a decode sequence receives a token, it is marked to complete
/// exactly when the token is the end-of-sequence token, when its output then
/// reaches the request's `max_tokens`, or when its prompt and output then
/// reach `max_model_len`.
pub proof fn law_completes_on_eos_or_limits(
    v: SchedView,
    lim: Limits,
    due: Seq<SeqId>,
    k: int,
    tok: TokenId,
    eos: TokenId,
)
    requires
        sched_inv(v, lim),
        0 <= k < v.decode.len(),
    ensures
        ({
            let s = v.decode[k];
            let done = tok == eos || s.request.output.len() + 1 >= s.request.params.max_tokens
                || s.request.input.len() + s.request.output.len() + 1 >= lim.max_model_len;
            record_one(v, due, s.seq_id, tok, eos, lim).1 == if done {
                due.push(s.seq_id)
            } else {
                due
            }
        }),
{
    let s = v.decode[k];
    let id = s.seq_id;
    lemma_ids_parts(v);
    assert(seq_ids(v.decode)[k] == id);
    lemma_position(seq_ids(v.decode), k);
    law_completion_condition(v, lim, due, id, tok, eos);
    let w = with_token(s, tok);
    assert(w.request.output == s.request.output.push(tok));
    assert(w.request.output.last() == tok);
}

/// Law: the memory watermark is the threshold's share of the pool, rounded
/// down: `watermark * 1_000_000 <= max * threshold < (watermark + 1) * 1_000_000`
/// for a threshold strictly between 0 and one million.
pub proof fn law_watermark_rounds_down(max: u32, threshold: i64)
    requires
        0 < threshold < 1_000_000,
    ensures
        watermark_blocks(max, threshold) * 1_000_000 <= (max as int) * (threshold as int),
        (max as int) * (threshold as int) < (watermark_blocks(max, threshold) + 1) * 1_000_000,
        0 <= watermark_blocks(max, threshold) <= max,
{
    let p = max as int * threshold as int;
    let w = p / 1_000_000;
    vstd::arithmetic::div_mod::lemma_fundamental_div_mod(p, 1_000_000);
    assert(0 <= p) by (nonlinear_arith)
        requires
            p == max as int * threshold as int,
            threshold > 0,
    ;
    assert(p <= max as int * 1_000_000) by (nonlinear_arith)
        requires
            p == max as int * threshold as int,
            threshold < 1_000_000,
    ;
}

/// Law: a non-empty pool is under memory pressure exactly when its used
/// blocks, in millionths of the pool, reach the threshold.
pub proof fn law_pressure_is_utilization(free_len: nat, total: nat, threshold: i64)
    requires
        0 < total <= u32::MAX,
        free_len <= total,
    ensures
        under_pressure(free_len, total, threshold) <==> (total - free_len) * 1_000_000 >= (threshold as int) * (
        total as int),
{
}

proof fn lemma_pending_fold_suffix(p: Phase, lim: Limits)
    ensures
        exists|k: int| 0 <= k <= p.queue.len() && #[trigger] p.queue.skip(k) == pending_fold(p, lim).queue,
    decreases p.queue.len(),
{
    if p.queue.len() > 0 && p.num < lim.max_batch_size {
        let id = p.queue[0].0;
        let r = p.queue[0].1;
        let t = r.input.len() as u32;
        let rest = p.queue.drop_first();
        let need = ceil_div(t as int, lim.block_size as int);
        let wm = watermark_blocks(lim.max_num_blocks, lim.memory_threshold);
        if t <= lim.max_total_tokens && need <= lim.max_num_blocks && need <= wm && (p.total + t
            > lim.max_total_tokens || p.free.len() < need || lim.max_num_blocks - p.free.len() + need > wm) {
            assert(p.queue.skip(0) =~= p.queue);
        } else {
            let next = if t > lim.max_total_tokens {
                Phase {
                    queue: rest,
                    completed: p.completed.push(with_state(r, StateView::Failed(too_many_tokens_reason(t, lim.max_total_tokens)))),
                    ..p
                }
            } else if need > lim.max_num_blocks {
                Phase {
                    queue: rest,
                    completed: p.completed.push(with_state(r, StateView::Failed(too_many_blocks_reason(need as u32, lim.max_num_blocks)))),
                    ..p
                }
            } else if need > wm {
                Phase {
                    queue: rest,
                    completed: p.completed.push(with_state(r, StateView::Failed(over_watermark_reason(need as u32, wm as u64)))),
                    ..p
                }
            } else {
                let st = started(id, r, p.free.take(need));
                Phase {
                    queue: rest,
                    free: p.free.skip(need),
                    tables: p.tables.insert(id, p.free.take(need)),
                    total: p.total + t,
                    num: p.num + 1,
                    out: p.out.push(st),
                    kept: p.kept.push(st),
                    ..p
                }
            };
            assert(pending_fold(p, lim) == pending_fold(next, lim));
            lemma_pending_fold_suffix(next, lim);
            let k = choose|k: int| 0 <= k <= next.queue.len() && #[trigger] next.queue.skip(k) == pending_fold(next, lim).queue;
            assert(p.queue.skip(k + 1) =~= rest.skip(k));
        }
    } else {
        assert(p.queue.skip(0) =~= p.queue);
    }
}

/// Law: pending requests are served first come, first served: the requests
/// still pending after a step are the queue with some of its front removed,
/// in the same order.
pub proof fn law_pending_served_in_order(v: SchedView, lim: Limits)
    ensures
        exists|k: int| 0 <= k <= v.pending.len() && #[trigger] v.pending.skip(k) == schedule_view(v, lim).pending,
{
    let (p1, p2, p3) = schedule_phases(v, lim);
    let p3s = Phase { out: Seq::empty(), kept: Seq::empty(), queue: v.pending, ..p2 };
    lemma_pending_fold_suffix(p3s, lim);
    if under_pressure(v.free.len(), lim.max_num_blocks as nat, lim.memory_threshold) {
        assert(v.pending.skip(0) =~= v.pending);
    }
}

/// Law: cancelling finds a request wherever it waits or runs: there is a
/// target exactly when some pending, prefilling or decoding entry serves the
/// request, and the target is the sequence id of such an entry.
pub proof fn law_cancel_finds_request(v: SchedView, rid: u64)
    ensures
        cancel_target(v, rid) is Some <==> (exists|k: int| 0 <= k < v.decode.len() && (#[trigger] v.decode[k]).request.id == rid)
            || (exists|k: int| 0 <= k < v.prefill.len() && (#[trigger] v.prefill[k]).request.id == rid)
            || (exists|k: int| 0 <= k < v.pending.len() && (#[trigger] v.pending[k]).1.id == rid),
        cancel_target(v, rid) matches Some(id) ==> (exists|k: int|
            0 <= k < v.decode.len() && (#[trigger] v.decode[k]).request.id == rid && v.decode[k].seq_id == id) || (
        exists|k: int| 0 <= k < v.prefill.len() && (#[trigger] v.prefill[k]).request.id == rid && v.prefill[k].seq_id == id)
            || (exists|k: int| 0 <= k < v.pending.len() && (#[trigger] v.pending[k]).1.id == rid && v.pending[k].0 == id),
{
    lemma_first_for_request(v.decode, rid);
    lemma_first_for_request(v.prefill, rid);
    lemma_first_pending_for_request(v.pending, rid);
}

} // verus!
