# rav1e channel layer, verified

`src/` is a Verus library:

- `api/rate.rs` — two-pass rate control: the summary packet format, the
  first-pass data a context hands out, the checks of a second pass, and
  summary merging; with the laws that a first-pass summary is accepted by a
  second pass over the same configuration and that merging adds frame counts.
- `api/by_gop.rs` — key-frame placement (`SceneChange`), the splitter that
  cuts the input into sub-GOPs (`GopSplitter`), and the `Reassembler` that
  puts the workers' output back in GOP order; with the laws that no frame is
  lost or reordered and that GOP order is restored.
- `api/config.rs` — the encoder settings and their check (`Config::validate`).
- `api/pool.rs` — the decisions of the encoder workers and the sizing of the
  GOP-parallel channel.
- `api/channel.rs` — the AV1 codec configuration record, written through
  `bitstream_io` (`bitwriter.rs`).
- `frame/data.rs` — plane sample buffers.
- `cli/` — the two-pass statistics file format, the input frame budget and
  the settings taken over from the input.

`app/` holds the threads, channels, files, logging and signal handling that
drive the library; `tests/` runs it on concrete values.
