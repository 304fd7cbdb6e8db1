# just-fancy

A fancy wrapper for [just](https://github.com/casey/just) with parallel execution and pretty
output. Independent recipes run concurrently, dependencies run first, spinners and previews show
what goes on, and the output of each recipe is kept in a log file.

The library is written in Rust and verified with [Verus](https://github.com/verus-lang/verus).

## Layout

- `src/` is the verified library.
  - `justfile`, `resolve`, `source`, `namepath`: justfiles with modules, and the name paths that
    short dependency names stand for.
  - `dependency`, `edges`, `digraph`, `graph`: the dependency graph of a recipe and its execution
    order, on top of `petgraph`.
  - `schedule`, `executor`: which recipes start when, and what is reported of them.
  - `output`: previews and logs, on top of `strip-ansi-escapes`.
  - `ui`, `cli`: what is shown, and what is asked for.
  - `text`, `sequences`, `name_map`: text, sequences, and maps with names as keys.
- `tests/` runs the library.
- `app/` is the program: arguments, processes, files and the terminal.

## Usage

```sh
# Run the default recipe
just-fancy

# Run a specific recipe with arguments
just-fancy deploy production

# Limit parallel jobs
just-fancy -j 4 build

# List available recipes
just-fancy -l

# Disable fancy output (passthrough to just)
just-fancy --no-capture build
```

`just` must be installed and available in the path.
