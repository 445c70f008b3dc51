# agent-mcp

An MCP server of code operations for LLM agents — directory listing, text
search, excerpt and file reads, symbol extraction, anchor-based patching,
file creation and deletion, and a shell in a Docker container — whose
decisions are verified with Verus.

## Layout

- `src/` — the verified library (`agent_mcp`).
  - `protocol.rs`: requests, results and the structured error.
  - `workspace.rs`: the sandbox; every path resolves inside the root.
  - `paths.rs`: file names, extensions and the temporary-file path.
  - `text.rs`: UTF-8 helpers: byte/char correspondence, search, truncation.
  - `rope.rs`, `cache.rs`: the rope text cache with freshness by
    (size, mtime) and a byte budget with LRU eviction.
  - `ops/`: one module per operation. Each takes what the file system,
    ripgrep, tree-sitter or Docker report as plain values and decides.
- `app/` — the server: MCP over stdio (`rmcp`), the line-based JSON
  engine front end, the file system, the `rg` and `docker` processes, and
  the wire forms of the types.
- `tests/` — tests of the library.

## Running

```bash
REPO_ROOT=/path/to/repo agent-mcp
```

As a code engine, one JSON request per line in and one response per line
out:

```bash
echo '{"id":"1","op":"list_dir","args":{"dirPath":"."}}' | agent-mcp --engine /path/to/repo
```

`AGENT_MCP_DOCKER_IMAGE` (default `ubuntu:24.04`) picks the image of the
shell container; `AGENT_MCP_CACHE_MB` (default 128) bounds the text cache.
