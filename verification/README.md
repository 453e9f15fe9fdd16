# require_by_string

Rewrites the module requests of Luau scripts before a project is synchronized to Roblox.

`require("@shared/module")` names a module by an alias that a `.luaurc` or `.config.luau` file
declares. Inside a game there are no files, so the request is replaced by an expression such as
`require(script.Parent:WaitForChild("shared"):WaitForChild("module"))`. Requests that Roblox
resolves by itself (`./`, `../`, `@self`, `@game`) stay as they are.

## Layout

- `src/` is the library, verified with Verus.
  - `transformer.rs`: the pipeline of transformers; `resume.rs`: its runs that wait for answers.
  - `personal.rs`: the pipeline of the standard commands.
  - `require_by_string.rs`: the transformer for requests; `rewrite.rs`: one script of it.
  - `luau.rs`, `literals.rs`: finding the requests of a source.
  - `config.rs`, `config_luau.rs`, `alias_cache.rs`: aliases and where they are declared.
  - `module_index.rs`, `expression.rs`, `edits.rs`: from a module to an instance to the new source.
  - `drives.rs`: paths of hosts with drives.
  - `error.rs`, `paths.rs`, `snapshot.rs`, `text.rs`, `text_map.rs`, `duplicate.rs`: what the rest
    is made of.
  - `files.rs`, `questions.rs`: what is known of the file system.
  - `runs.rs`: what holds of every run.
- `app/` answers the library's questions from a virtual file system and converts snapshots with
  Roblox property values.
- `tests/` runs the library on in-memory projects.

## Files

The library reads no files. A run that lacks an answer ends with `Error::Unanswered` and leaves the
transformer as it was; whoever runs it records the answer and takes the run on. `runs.rs` proves
that the order of the answers does not matter, `resume.rs` that no earlier transformer runs again.

A `.config.luau` file is a program. The library gets its contents as an answer and runs them in a
sandbox, for two seconds at most.

Paths are text with `/` between components. A host with drives hands `C:\project` over as
`/C:/project`.
