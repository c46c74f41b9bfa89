# smc

Search through conversation logs that are kept as JSON Lines, with JSON Lines as output. Every
stream opens with a `meta` record that carries a tag, every command respects a token budget and
closes with a summary, and a search leaves out what earlier searches printed.

The library is verified with Verus: each function states in its contract what it returns or
writes, and the `law_*` proof functions state what holds across functions.

| Directory | Contents |
|-----------|----------|
| `src/models.rs` | records of a log, and the text that they carry |
| `src/cmd/search/` | matching, snippets, threads, groups, order, and the search itself |
| `src/cmd/` | the other commands: recent messages, sessions, tool calls |
| `src/output/` | the output stream, its header and its budget, and what is read back from it |
| `src/util/` | dates, session files, token estimates |
| `src/text.rs`, `src/json.rs`, `src/order.rs` | text, JSON and ranking, on which the rest stands |
| `app/` | the `smc` program: arguments, files, threads, BM25 scores, standard output |
| `tests/` | the library on concrete values |

What the proofs take on trust is marked `external_body` or `assume_specification` in the source:
calls into `regex`, `serde_json` and the standard library, each with the contract that is
believed of it.

The program reads the logs below the directory that `--path` names, or else the variable
`SMC_PATH`.
