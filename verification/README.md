# docu_retriever

A local documentation retriever: it cuts Markdown files into chunks,
embeds them, stores them in a local vector database, and answers
natural-language queries with the best chunks as JSON.

The library in `src/` is verified with Verus:

- `text` — character helpers: whitespace, trimming, search, joining, decimal notation.
- `sections` — section paths and compact `first .. last` ranges.
- `markdown` — sections of a document from its parser events.
- `chunking` — normalisation of splitter pieces and coalescing of drafts.
- `index` — indexing options, the chunks of one file, the state of an
  indexing run, and the checks around embedding and querying.
- `storage`, `convert`, `embeddings`, `cli` — the rules of the vector store,
  of the AsciiDoc conversion, of the embedding backends and of the command line.
- `error` — the error kinds, their codes and the error record.

`app/` holds the program around it: argument parsing, file walking, the
embedding backends, the vector database and JSON output.
