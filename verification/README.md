# forthdb_world

A semantic database. Facts stand in named slots; a commit turns one world of facts into the next,
and every world is rebuilt from the frames that were committed.

`src/` is a Verus library: every function in it is verified against its contract, but for three
wrappers named under "What is trusted". `app/` holds what touches files, rings, memory mappings,
clocks and threads, and `tests/` runs the library.

## How the library is laid out

| Modules | What they hold |
| --- | --- |
| `fact`, `kernel`, `world`, `database` | facts, definitions, worlds, transactions and commits |
| `frame`, `payload`, `log_format`, `log_laws`, `commit_log`, `file_store` | commit frames, the log file, and the store that takes one frame at a time |
| `epoch_io`, `epoch_store`, `ring` | the store that takes an epoch at a time, its repair, and submission rings |
| `intent`, `plan_model`, `plan`, `plan_laws`, `intent_codec` | queued intents and the plan of an epoch |
| `vm`, `vocabulary`, `compile`, `compile_steps`, `semantic`, `symbols`, `materializer`, `mixed`, `mixed_plan` | the token machine that executes epochs, and semantic transactions |
| `stream`, `stream_intents`, `stream_lift` | intents as instruction streams |
| `journal`, `admission`, `admission_core`, `admission_worker`, `admission_ingress` | the journal of intents that are durable before they get their meaning |
| `image`, `image_build`, `snapshot_*`, `string_table`, `rows`, `ordered`, `history_codec` | snapshots that are read in place |
| `query_model`, `query`, `query_laws`, `query_match`, `query_same` | queries and what holds of their answers |
| `batching`, `staging`, `tickets`, `rejection`, `controller_metrics`, `queued_controller` | the controller that commits in memory |
| `durable_commit`, `speculative`, `durable_controller`, `recovery_laws` | the controller that commits to a file, and what a restart finds |
| `wire`, `cursor`, `text`, `digest`, `errors`, `fact_text`, `wording` | bytes, numbers, text and errors |

Each type has a mathematical value, its view, and contracts speak of views. Public proof functions
state what holds of several functions together, such as that a written log reads back, that a torn
record loses itself and nothing else, that a restart gives the published world, that the machine
and the kernel plan the same epoch, that worlds of equal facts answer equally, that a snapshot
answers as the world it was made of, and that an epoch is published and its tickets accepted only
when its bytes are written and synced.

## What is trusted

Four functions of the standard library have contracts that are not proved here: `String::push`,
`core::str::from_utf8`, `Arc::clone` and the formatting of text by `Debug`. The last three are
called by the wrappers `text_from_utf8`, `share` and `show_text`, whose bodies are not verified. Two
results have a name and nothing else is said of them: `utf8_error_text`, the text of the error for
bytes that are not UTF-8, and `debug_text`, a text between quotes with what cannot be shown escaped.
Both are taken to be functions of their argument. Devices, clocks and validators are traits; what
their implementations do is up to them, and the contracts say what is promised whatever they answer.
