# hetero_infer

A paged KV-cache inference engine with continuous batching, written in Verus.
The library's behaviour is stated as `requires` / `ensures` contracts over
mathematical models and proved by the verifier.

## Layout

- `src/config.rs` — engine configuration, its validation rules and defaults.
- `src/kv_cache.rs` — the block pool, page tables and the KV cache manager;
  the pool is always split between the free list and the page tables.
- `src/scheduler.rs` — the continuous-batching scheduler: admission under
  memory pressure and the memory watermark, the decode / prefill / pending
  phases of a step, token recording and completion. `SchedView` is its model.
- `src/engine.rs` — the engine: request admission, one step (schedule, run
  the batch, record, stream, drain), `run`, cancellation and metrics.
- `src/gpu_executor.rs` — batch building, staging buffers and the mock
  executor.
- `src/tokenizer.rs` — the character tokenizer with its streaming decoder,
  and the Hugging Face tokenizer behind small wrappers of the `tokenizers`
  crate.
- `src/types.rs`, `src/error.rs`, `src/text.rs` — shared types, errors and
  text helpers.
- `app/` — the command-line program: argument parsing, logging, reading and
  writing configuration files and tokenizer files.
- `tests/` — scenario tests.

The memory threshold, temperature and top-p are held as integers in
millionths; the program converts them from and to fractions.
