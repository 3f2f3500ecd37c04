# system_one

Typed, calibrated decisions: ask a fixed set of questions about a state, get
probabilities back, decide on them, record what was said and measure whether a
0.8 really meant 80 %.

`src/` is the library, verified with Verus:

| Module | What it holds |
|---|---|
| `schema`, `answer`, `traits`, `error` | questions, answers, and their typed views |
| `derive` | what an enum or a struct says about the questions it stands for |
| `engine`, `backend` | caching and recording; what each backend sends, reads and decides |
| `record`, `calibration` | recordings, outcomes, reliability counts |
| `rank`, `ask` | the logic of the command-line programs `so-rank` and `jev-ask` |
| `json`, `hash`, `binary64`, `order`, `sorting`, `sorted_map`, `numeral`, `text` | what the rest is built on |

Probabilities are IEEE 754 binary64 numbers, held by their bits: comparing,
ordering and clamping them is verified, arithmetic on them is done outside.
JSON values are those of `serde_json`; what a value holds has a name,
`json::json_tree`, and every contract that speaks of a value speaks of that.

`app/` is ordinary Rust around the library: HTTP, files, serialisation,
floating-point sums, the two programs. `tests/` runs the library.
