# ut

A task runner for [uv workspaces](https://docs.astral.sh/uv/concepts/projects/workspaces/), with
its decisions verified by [Verus](https://github.com/verus-lang/verus).

Each package declares tasks under `[tool.ut.tasks]` in its `pyproject.toml`. `ut <task>` runs a
task in the package around the current directory, or in the workspace root; `ut run -w <task>`
runs it in every member that defines it, in parallel, each member after the members that it
depends on; `ut list` lists members and tasks.

## Layout

`src/` is the library. It works on plain values and does no input or output.

- `package`: package names, and the names that requirements mention
- `tasks`, `shell`: tasks, their command lines, and what a shell makes of a quoted argument
- `pyproject`, `discover`: manifests, and the search for the workspace and its packages, which
  says at each point what has to be looked at next
- `load`, `graph`, `workspace`: members, their dependencies and their order
- `command`, `list`: what a command runs and where, and what it lists
- `run`, `schedule`: the steps of a task one after another, and invocations side by side
- `error`, `style`: messages and colors
- `names`, `paths`, `order`, `text`: sets and tables of names, paths, order, text

Statements about the library as a whole are proof functions whose names start with `law_`.

What is not proved is marked `external_body` or `assume_specification`: appending a character to a
string, `Debug` formatting of strings, lossy decoding of UTF-8, the parsing of requirements by
`pep508_rs`, and the escape sequences of `owo-colors`.

`app/` is the program around the library: arguments, files, processes. `tests/` runs the library.
