# mcpod

An MCP server that lets an agent work inside a development container through
four tools: `read`, `bash`, `edit` and `write`.

- `src/` is the verified library: path resolution inside the workspace, text
  matching and editing, output truncation, paging, image replies, configuration
  and access rules, environment reports, atomic-write steps, per-file locks and
  the sessions of the SSE transport. Each function states its behaviour in a
  contract, and what relates several functions stands as a public proof
  function beside them.
- `app/` is the program around it: HTTP, files, processes and timers.
- `tests/` runs the library on concrete values.

Calls into other crates (Unicode normalisation, line diffs, image decoding,
base64, identifiers) are made by small functions marked
`#[verifier::external_body]`, whose doc comments say what is taken on trust.
