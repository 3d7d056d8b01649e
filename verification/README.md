# inference_core

The scheduling and memory bookkeeping of a small LLM serving engine,
written in Verus and proved against its contracts.

- `src/types.rs`: requests, model dimensions and the id types.
- `src/block_manager.rs`: the paged KV-cache block manager. Blocks come
  from a free list; full prompt blocks whose content was already computed
  are shared through a prefix cache keyed by a hash of their tokens, and
  every holder of a block owns one reference to it. Its invariant ties the
  free list, the reference counts, the prefix cache and the block tables
  together. Under `src/block_manager/`: the content hash (`hashing`), the
  count of references over all tables (`refs`), the plan of an allocation
  (`plan`), the entry-by-entry effect of releasing a table or marking
  it computed (`steps`), and the block tables over a run of calls
  (`history`).
- `src/scheduler.rs`: the first-come first-served prefill scheduler under
  a token budget, and what it holds over a run of calls.
- `src/model.rs`: the shapes of a forward pass and the check on its input.
- `src/worker.rs`: the worker types.
- `app/`: the float tensors, the `Model` interface and a mock model with
  random logits, on top of the verified shape logic.

Verus checks everything under `src/`; the tests under `tests/` exercise the
library as compiled code.
