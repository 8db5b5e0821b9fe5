# json_reordering

Tools that measure how the order of keys in JSON Lines records affects zstd compression,
and a hook logger for AI coding agents.

The library (`src/`) is verified with Verus:

- `json` — JSON values, their mathematical model, the byte order of keys, and what it means
  for two values to hold the same content;
- `number` — JSON numbers, held as `serde_json` holds them so they are written back unchanged;
- `reorder` — sorting keys at every depth, preserving them, and shuffling them;
- `sorted_object` — member lists kept in ascending key order;
- `transaction` — the synthetic payment records of the benchmark and their three key orders;
- `jsonl` — JSON Lines framing and reading;
- `json_text` — reading JSON text, and JSON Lines documents line by line, with `serde_json`,
  and writing values back as compact JSON;
- `compress` — zstd compression of byte buffers;
- `paths` — output and log file names;
- `digits`, `random`, `ordered_map` — number formatting, the seeded generator, the
  insertion-ordered map;
- `pipeline` — the computations of the benchmark and of the file rewriter.

`app/` holds the command line: reading and writing files, logging, and the printed reports.
The binary takes the command line of `agent-edr`, `json_ordering` or `json_reordering` when
started under one of those names, and the program as a subcommand otherwise.
