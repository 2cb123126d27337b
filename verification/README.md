# corpus

The core of a small retrieval server for documentation, written and proved in
Verus. It indexes the documentation of a repository and ranks it for a query: a
lexical lane that is always there, an optional semantic lane, and a fusion of
both. Index runs are incremental by content hash.

## Layout

- `src/` is the library. Every function has a contract that Verus proves, but
  for the calls into other crates: there a contract that is not proved says what
  the call does, and its comment names the call.
  - `chunk` cuts documents into chunks along their headings.
  - `discovery` picks the documents out of a walk over the repository.
  - `manifest` records what is indexed, by content hash.
  - `store` holds the chunks and their vectors.
  - `index` makes documents and queries for the lexical index.
  - `embed` checks vectors from embedding services, and holds a stub.
  - `search` has the search modes, rankings, fusion and snippets.
  - `corpus` runs the index and the searches, step by step.
  - `reconcile` states what index runs keep true of all the stores.
  - `server` reads tool calls and describes the tools.
  - `config` puts the configuration together.
  - `ordered`, `sorting` and `text` are what the others are built from.
- `app/` is the program: files, the lexical index on disk, the embedding
  services, the protocol, and all floating point arithmetic.
- `tests/` runs the library, also against an index in memory.

## What is proved

Beside the contract of each function, the `law_` functions state what holds of
several together. After a run the manifest, the chunk store, the vector store
and the lexical index agree; a second run on an unchanged repository skips every
file and changes no store; a changed file is indexed as it is now, a skipped one
keeps the chunks it was cut into, and a deleted one leaves nothing behind. Every
vector is of the recorded model. Windows of a long section stay within the size cap, overlap and cover
the section. A query is a bag of terms whatever is asked, and a search gives at
most as many results as were asked for, in the order of the ranking.

Scores and vectors are held as the bits of 32-bit floating point numbers.
