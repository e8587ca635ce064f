# bountydesk

A personal desk for bounties, RFPs and small paid tasks, kept as markdown: an inbox
table (at most three open rows), a ledger table, and one-page proposals with five
headings (`problem`, `do`, `dont`, `demo`, `milestones`).

- `src/` is the verified library.
  - `text.rs`: the character-level model (`str::lines`, `trim`, `split`, decimal
    numbers) and the executable helpers proved against it; `str::to_lowercase` is
    called behind a named result.
  - `table.rs`: `Row` (a map from column name to cell, each name once), the markdown
    table reader `parse_md_table`, and the writer of table lines.
  - `pattern.rs`: the `regex` crate, behind two trusted functions.
  - `validate.rs`: the inbox, ledger and proposal rules, and adding rows.
  - `laws.rs`: properties that span the functions, such as "what is added is read back".
- `app/main.rs` is the command line (`list`, `add-inbox`, `add-ledger`, `validate`,
  `proposal`): file I/O, `clap` and JSON output.
- `tests/` runs the library on concrete inputs.
