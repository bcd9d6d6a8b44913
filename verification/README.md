# uvxy

`uvxy` runs `uv tool run`, and it supplies the `--from` argument that a
configuration file maps to the command. It accepts every `uvx` argument, and
reads its own flags from the `--uvxy-` namespace.

## Layout

- `src/` is the library, verified with Verus. Every decision of the program
  stands there, with a contract:
  - `rewrite` finds the command among the arguments and inserts `--from`;
  - `flags` reads the flags that take a value out of the zsh completion
    script of uv, and keeps them in a cache file;
  - `config` reads the `[commands]` table of `uvxy.toml` and merges the
    system file and the user file;
  - `uvbin` lists where the uv binary may lie and picks the first that exists;
  - `cli` decides what a run prints, refuses, or hands to uv;
  - `sorted` and `text` hold the sorted string set and map, and the
    character-level helpers the others use.
  The proof functions named `law_*` state what holds across calls.
- `app/main.rs` is the program: it reads the environment, the files and the
  output of uv, hands them to the library, and performs what the library
  decides.
- `tests/` runs the library on concrete inputs, including whole runs against a
  fake uv held in memory.
