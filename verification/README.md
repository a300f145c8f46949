# ssd_moe

Streaming of mixture-of-experts weights from disk: the experts of a model are
split into one file each, read on demand into aligned buffers, kept in an LRU
cache, and decoded from their block-quantized form. The library is written in
Rust and proved with Verus.

- `src/` is the verified library.
  - `extract` plans the split of a GGUF model: tensor names, fused tensors, the
    files of the experts and their manifest.
  - `aligned_buffer`, `buffer_pool` and `expert_cache` hold experts in memory.
  - `storage` and `manifest` say where experts lie; `io_uring` carries batches
    of reads through the kernel's submission ring.
  - `dequant` decodes Q4_0, Q8_0, Q4_K and F32 matrices into exact integers.
  - `backend` puts these together: a fetch is a hit, or a buffer to read into.
  - `predictors` count which experts follow which, and rank what to prefetch.
- `tests/` runs the library with the crates that it calls.
- `app/` is the extraction program, and the plain Rust around the library that
  streams experts: files, locks, the ring, tensors and floating point.

Probabilities are exact fractions and decoded weights are the integers they are
made of; `app/` turns both into floating point.
