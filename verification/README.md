# git-status

A [herdr](https://herdr.dev) plugin that shows each space's git working-tree
status in the sidebar: `+staged ~modified ?untracked !conflicts`, with zero parts
omitted, and `✓` for a fully clean repo (nothing to commit, push, or pull).

The rules are a library verified with [Verus](https://github.com/verus-lang/verus);
a small program around it does the talking to git, to the host and to the
terminal.

## The library, `src/`

| module     | what it holds                                                          |
|------------|------------------------------------------------------------------------|
| `git`      | porcelain-v1 parsing, the status token, severities                     |
| `config`   | `config.toml`, the plugin id and where files lie                       |
| `collect`  | spaces from workspaces and panes, worktree families, snapshots         |
| `daemon`   | status tokens, requests to the host, sweeping, pid file, updater loop  |
| `push`     | one refresh, request by request, as a function of the host's answers   |
| `host`     | what the requests do to the host, and what holds of it                 |
| `surfaced` | the record of what is shown                                            |
| `render`   | the terminal report, the live watch and the JSON payload               |
| `cli`      | flags and run modes                                                    |
| `model`    | the data types                                                         |
| `text`     | text primitives over characters                                        |

Every function has a contract over the mathematical views of its arguments. What
holds of several functions together stands in public proof functions whose names
start with `law_`.

Three things are trusted rather than proved: `String::push`,
`String::from_utf8_lossy` and `serde_json::to_string_pretty`.

## The program, `app/`

Socket, processes, signals, files, the clock and floating-point numbers.
