# holdem_solver

A verified core for solving no-limit hold'em: public betting trees with chance
nodes and abstractions, compiled games, CFR+ and external-sampling MCCFR for two
and for many players, sampled batches with checkpoints and durable jobs, and
reports.

The library under `src/` is written in Verus; every function states what it
returns. Numbers that the solvers add and multiply are floating point: the
library holds them as IEEE-754 bit patterns, decides on them (sign, finiteness,
thresholds of draws), and takes sums and products as arguments, or a function
that adds. One contract is taken on trust: that `String::push` of the standard
library appends a character (`text`).

| Modules | Subject |
| --- | --- |
| `hash`, `rng`, `bits`, `text`, `table`, `group`, `sums`, `csv` | fingerprints, generator, bit patterns, text, ordered tables |
| `cards`, `domain`, `ranges`, `sampler`, `sampling`, `deals` | cards, betting states, ranges, private deals |
| `tree`, `chance`, `action_abstraction`, `tree_builder`, `tree_fingerprint` | public trees |
| `card_abstraction`, `card_rebuild`, `merged_again`, `merged_totals`, `blocking` | merged chance outcomes |
| `game`, `multiway`, `reach`, `reference_games` | static games and their validation |
| `payoff`, `compile`, `holdem`, `heads_up` | hold'em trees as games |
| `checkpoint`, `walk`, `solver`, `multiway_walk`, `learning`, `visits` | solvers for static games |
| `schedule`, `runs`, `multiway_runs` | whose turn it is, runs and resumed runs |
| `arena`, `profile_cache`, `batch_metrics`, `batch_store`, `stage`, `batch` | sampled batches |
| `parallel`, `reduction` | batches worked on side by side, reduced in task order |
| `job`, `job_files` | durable jobs |
| `report`, `range_report`, `matrix`, `matrix_csv`, `batch_report` | reports |
| `messages`, `run_messages` | errors in words |
| `spot`, `spot_history`, `spot_report`, `spot_job`, `drill` | spots and drills |

`app/` holds the floating-point arithmetic, JSON, files and threads, and the
`Host` trait through which a program supplies betting rules, showdowns and range
notation. `tests/` runs the library on concrete games and tables.
