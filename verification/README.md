# context-smith

Selects the files of a Git repository that bear on a task, and packs them into a
bundle that fits a token budget.

The library in `src/` holds the logic and is verified with
[Verus](https://github.com/verus-lang/verus): every public function states what it
returns, and Verus proves it. `app/` is the command line around it: it runs Git,
SQLite and the embedding service, reads and writes files, and does the arithmetic
on floating-point numbers. `tests/` runs the library.

| Module | What it holds |
|---|---|
| `text`, `path` | strings as sequences of characters, paths by their components |
| `score`, `rank`, `top` | scores by their bits, and ranking by them |
| `language`, `symbols` | the symbols of Rust, Python and Go sources |
| `git`, `index_builder`, `index_run`, `incremental` | what is indexed of a repository, and when |
| `timestamp` | points in time as texts |
| `tokenizer`, `search_index` | search terms and queries |
| `use_paths`, `dep_builder`, `dep_graph` | imports, dependencies, and the spreading of scores |
| `embed`, `embed_run` | stored vectors, the fusion of rankings, and the requests for vectors |
| `budget`, `bundle_writer`, `select` | the selection, the bundle, and the arguments of the commands |

What holds of several functions together is stated by the public proof functions
whose names begin with `law_`. What is believed without proof of other crates and
of the standard library is stated at the declarations that call them: the parsing
of sources in `symbols`, and a few functions on characters and strings in `text`,
`tokenizer`, `bundle_writer` and `symbols`.
