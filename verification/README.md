# sentrux

Answers of the analysis tools that an MCP server offers on a scanned code base: `git_stats`,
`dsm`, `test_gaps`, `file_info` and `top_files`, and the check of architectural rules.

- `src/` is the library. Every function states what it returns, and Verus proves it; only the calls
  into `serde_json` are trusted.
  - `snapshot`, `reports`: what a scan and its analyses found.
  - `tree`, `coupling`, `pairs`, `issues`, `measures`: what the tools take from it.
  - `double`: double-precision arithmetic on integers, with its laws.
  - `ranking`: a stable sort by rank.
  - `json`: `serde_json` values, by the tree that each of them holds. It holds those calls, and
    states what is trusted of each.
  - `evolution`, `dsm`, `test_gaps`, `file_info`, `top_files`: the tools; `tools` announces them.
  - `glob`, `rules`: path patterns and architectural rules.
- `tests/` runs the library on concrete scans.
- `app/` is the server side: it plugs in the analyses that read repositories and source text.
