# mkdir2

A `mkdir` replacement with brace expansion, `/` and `\` as interchangeable
separators on every platform, safe force-recreate, themed output and JSON
reports. The decisions are a library verified with Verus; the command
around it does the terminal and filesystem work.

## Layout

- `src/text.rs`: characters of strings, Unicode whitespace trimming,
  decimal formatting and digit parsing.
- `src/brace.rs`: Bash-style brace expansion (`{a,b}`, nesting, numeric
  ranges with step and zero padding, letter ranges); `expand` is specified
  by `spec_expand`.
- `src/pathnorm.rs`: path normalization under Unix or Windows path rules
  (the platform's by default) and the absolute-path test.
- `src/color.rs`: `--color` modes, `#RRGGBB` parsing and the message theme
  (painting goes through the `colored` crate).
- `src/cli.rs`: the command-line options, custom colors and `--mode`.
- `src/mkdir.rs`: target collection, the per-target state machine
  (`Process::step`), message rendering and the run summary.
- `app/main.rs`: argument parsing, reading `--from`, performing the
  operations that `Process::step` asks for, and printing.

Each module states its laws as public proof functions whose names start
with `law_`.
