# resolc_output

What compiling a Solidity project with `resolc` gives, collected over all runs of the compiler:
diagnostics, source files, contracts and artifacts. The library tells whether a compile failed,
which warnings are passed over, how the diagnostics are displayed, and finds, removes and moves
contracts and artifacts. It is written in Verus: the functions state in their contracts what they do
and what they require, and the contracts are proved.

- `src/aggregated.rs`, `src/diagnostics.rs`, `src/project.rs`: the outputs themselves.
- `src/contracts.rs`, `src/sources.rs`, `src/artifacts.rs`: contracts, source files and artifacts by
  the compiler runs that they come from.
- `src/file_map.rs`, `src/path_map.rs`, `src/sorted_map.rs`, `src/path.rs`, `src/order.rs`: sorted
  maps that are keyed by paths and names.
- `src/laws.rs`: what holds of the outputs as a whole.
- `src/version.rs`, `src/style.rs`: what is believed of `semver` and `yansi`.
- `app/`: displaying, writing and storing outputs.
