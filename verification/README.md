# g2048

A 2048 player in verified Rust: the game's rules, an n-tuple value network with TD learning,
an expectimax search, and a training farm of one coordinator and many workers.

- `src/` is the library. Every function carries a contract that Verus proves; the laws that
  relate several functions are public proof functions beside them. Floating-point numbers
  appear as their bit patterns: comparisons and rounding are done on the bits, and arithmetic
  is brought by the caller as closures, over which the contracts speak.
- `tests/` runs the library on concrete values.
- `app/` is the program around it: threads on shared weights, HTTP, files and float formatting.

| Modules | What they hold |
|---|---|
| `row`, `board`, `merges`, `rng` | moves, new tiles, the generator |
| `floats`, `learn`, `ntuple`, `net_laws`, `weights` | the network, its learning rule and its file |
| `pool`, `episode`, `train` | training games |
| `ai`, `search` | expectimax |
| `le`, `codec`, `bundle`, `vecs`, `sort`, `select` | weight changes on the wire |
| `text`, `http`, `job`, `chunk`, `worker`, `load` | requests, settings and reports |
| `deltas`, `workers`, `shares`, `coord` | the coordinator |
| `columns`, `status`, `colours`, `cli` | the status page and the command line |

The one assumption is the contract of `String::push`, in `text`.
