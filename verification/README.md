# pm

`pm` is a local, pipe-friendly command-line prompt manager that stores
reusable prompts in SQLite. Prompts are Markdown with YAML front matter; their
bodies are templates with `{{variables}}` (optionally `{{name=default}}`) and
`{{prompt:other}}` references to other prompts.

## Layout

- `src/` is the verified library. Its functions carry `requires`/`ensures`
  contracts that Verus proves:
  - `prompt/`: prompt names, groups and tags; the template language
    (`template.rs`); the Markdown format (`markdown.rs`).
  - `commands/`: what each command computes — expanding compositions and
    asking for variables (`get.rs`), the sorted listing and its tables
    (`list.rs`), search lines, version history and coloured diffs, the update
    decision.
  - `db.rs`: the records the store keeps, the literal full-text query, the
    update plan.
  - `editor.rs`, `paths.rs`, `stdin.rs`, `cli.rs`, `text.rs`, `error.rs`.
- `app/` is the program around it: command-line parsing, the SQLite store,
  YAML, the editor, the pager, `fzf` and self-update.
- `tests/` exercises the library on concrete values.

Calls into other crates (`shell-words`, `time`, `timeago`, `similar`,
`anstyle`, `std::str::from_utf8`) go through small trusted wrappers whose
contracts state what those crates document; everything built on them is
proved.
