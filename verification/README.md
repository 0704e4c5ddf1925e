# mnemo

The verified core of a local-first memory and knowledge engine for AI
agents: file identification and parsing (plain text, Markdown, HTML, PDF,
DOCX), paragraph-aware chunking, content hashing, full-text query
sanitising, hashing-trick embeddings, and context packing (near-duplicate
dropping, greedy packing under a token budget and a source cap, neighbour
expansion).

Layout:

- `src/` — the library, written in Verus. Every function carries a
  contract, and the laws of the library (round trips of the stored
  enumerations, the bounds of packing and expansion, the shape of chunks
  and embeddings, where each parsed section sits in the document's text,
  the order-independence of the embedding counts) are proof functions.
- `tests/` — tests of the library on concrete inputs.
- `app/` — ordinary Rust around the library: reading files, running the
  PDF text extractor (whose panics on malformed files are caught there),
  the SQLite store, floating-point embeddings, similarity, score fusion
  and reranking.
