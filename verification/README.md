# ragamuffin

A local-first, transparent semantic memory for LLM coding tools. Notes are
stored as vectors plus plain text on disk and retrieved by meaning, through a
command line and an MCP server.

## Layout

- `src/` is the verified library (Verus):
  - `text`: Unicode whitespace, word and line splitting, trimming, joining.
  - `chunk`: word-window, heading-aware markdown and field-aware JSON
    chunking, routed by file extension.
  - `json`: the JSON value model, its compact text, record parsing and
    flattening of records into text lines and scalar metadata.
  - `store`: content-derived ids, the idempotent upsert that keeps vectors,
    metadata and ids row-aligned, the vectors file encoding, and top-k ranking.
  - `scan`: which files a directory ingestion keeps.
  - `cli`, `mcp`, `embedder`, `rag`, `error`: command-line data, tool
    arguments and result text, the model's dimension, and the error types.
- `app/` is the program around it: argument parsing, file and directory I/O,
  the embedding model and its floating-point arithmetic, and the MCP
  transport.
- `tests/` exercises the library on concrete values.

## Store layout

    ragstore/
        docs/<id>.txt     raw text, one file per entry
        vectors.bin       contiguous little-endian f32, N x dim
        meta.json         metadata, row-aligned with vectors.bin
        (dimension record) { "dim": 384 }, a small JSON file
