# makedown

Markfiles (`.mf`) describe work as targets with dependencies, descriptions
and acceptance items; `mkd` turns the targets below one of them into a
staged Markdown plan, and `mkd-lsp` helps while editing them.

The library under `src/` is written in Verus: each function states what it
does in its contract, and Verus proves the code against it.

- `text`, `order`: character-level helpers and the orders of names, paths
  and target identities.
- `parser`, `formatter`, `linter`: the syntax of one Markfile, its
  conservative formatting, and its diagnostics.
- `model`, `project`, `graph`: the resolved project, the analysis that loads
  modules, resolves imports and dependencies and reports problems (cycles
  exactly when a dependency loops), and the dependency graph.
- `compiler`: staged plans (one per requested target) and their default
  Markdown rendering.
- `render`: a plan as the document a MiniJinja template makes of the
  `plan` object, or as the default Markdown.
- `config`, `cli`, `logging`: the decisions of the command line, the
  project configuration and the progress log.
- `lsp`, `workspace`, `template`: the editor support: positions in UTF-16
  columns, formatting answers, jumps to declarations, references,
  completions and template checks.

Laws that relate several functions stand in `src/` as public proof
functions whose names start with `lemma_`.

`app/` holds the programs around the library: the `mkd` command line (file
access, terminal output, TOML decoding)
and the `mkd-lsp` language server on standard input and output. `tests/`
holds the tests of the library.
