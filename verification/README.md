# gemma-rs

A small decoder-only language-model toolkit (GemmaAgent) whose integer and
byte-level core is written in Verus and proved against its contracts.

## Layout

- `src/` — the verified library.
  - `config` — model profiles and their parameter count.
  - `tokenizer` — the byte tokenizer (256 byte ids plus BOS/EOS).
  - `amd_tokenizer` — the learned subword tokenizer: training
    (`occurrences`, `piece_sort`, `piece_stats`), greedy longest-match
    encoding, decoding, and its text file (`table_file`, `lines`,
    `decimal`).
  - `checkpoint`, `optim_state`, `train_meta`, `le` — the `GRS2` weight
    frame, the `ADW1` optimizer-state frame and the `GEMMASTATE2` training
    metadata, with values carried as IEEE 754 bit patterns.
  - `sampling`, `batches` — the xorshift and congruential generators,
    unique target sampling, the context curriculum, batch windows, warm-up
    and validation split.
  - `args` — command-line options.
  - `memory` — word sets and overlap for experience recall, journal path,
    id assignment and line counting.
- `tests/` — tests of the library.
- `app/` — the program around it: the float autograd engine, models,
  optimizer, runtime, file and network I/O, the JNI bridge, and (behind
  features) the Burn, Candle and egui front ends.

Laws proved in `src/` include: decoding an encoding gives the text back
(both tokenizers), every encoded id lies inside the vocabulary, a saved
tokenizer, checkpoint, optimizer state or training metadata reads back
unchanged, a truncated or padded checkpoint is refused, sampled target
positions are distinct, and the curriculum never shortens the context.
