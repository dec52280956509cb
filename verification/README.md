# vue-scanner

A scanner for Vue single-file components (`.vue`) that reports security and
maintainability problems, with its core written in Verus and proved against
its contracts.

Rules (short name, full id, severity):

- `no-v-html` (`vue/security/no-v-html`, warning): the first `v-html` of
  each template line (XSS risk).
- `no-dynamic-bind-src` (`vue/security/no-dynamic-bind-src`, warning): every
  `:src` binding of the template, reported as the whole `v-bind:src` where it
  is one; a bare `:src` right after `bind:` (as in `bind::src`) is skipped.
- `no-inline-style` (`vue/performance/no-inline-style`, info): `style="…"`,
  `style='…'`, `:style="…"` and `:style='…'` attributes, each pattern searched
  on its own (so a `:style="` is also found as `style="`); the span covers the
  pattern and the byte after it.
- `no-watch-with-callback` (`vue/best-practices/no-watch-with-callback`,
  info): script lines that start with a `watch(` call.

Every finding starts at its match's byte offset in the file, for `\n` and
`\r\n` line endings alike. `--rules` takes short names or full ids.

A line can silence a rule for itself and the line below with
`// vuer-ignore[rule, …]` or `<!-- vuer-ignore[rule, …] -->`; every such
comment on the line counts.

## Layout

- `src/text.rs`: a model of strings as `Seq<char>` with their UTF-8 byte
  lengths, line splitting as `str::lines` does it, search and trimming.
- `src/parser/`: finding the `<template>` and `<script>` blocks of a component
  and the script's language.
- `src/rules/`: the rules, the `Rule` trait and the registry; each rule's
  findings are stated as a spec function of one line, which `scan_text` runs
  over every line of the template or script at its byte offset.
- `src/suppression.rs`: ignore comments; the comment itself is matched with the
  `regex` crate, the rule list is parsed and checked in verified code.
- `src/report.rs`: line and column of a diagnostic's byte offset.
- `app/`: the command-line program (argument parsing, reading files, walking
  directories, printing diagnostics with `miette` types).
