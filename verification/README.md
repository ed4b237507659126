# ripindex

A persistent, crash-safe inverted index over a directory tree: `src/` is the
verified library, `app/` the program around it.

## The library

- `tokenizer`, `text` — how text is cut into atoms and terms.
- `index` — postings, the document table and the in-memory builder.
- `format` — the files of a segment (`.idx`, `.doc`, `.del`), the overlay and the
  manifest: encoders, decoders, and the laws that what is written reads back
  (`format::dict_laws` for the term dictionary). A file whose checksum does not match
  is refused.
- `query` — the query language, its parser and its evaluation over any index.
- `store` — segments on disk: building, opening, updating, merging and committing.
  `store::protocol` is a commit as a state machine, one file operation at a time.
  Its laws:
  - `store::disk`, `store::sound`: whatever a crash at any operation of a safe commit
    leaves opens as the directory did before, or as it does behind the commit; every
    commit that the library makes is safe.
  - `store::recovery_laws`, `store::open_laws`: what the directory opens to behind a
    deletion, a full build, an update and a commit of merges, alone or under a crash.
  - `store::converge_laws`, with `store::state_laws` and `store::path_laws`: behind an
    update the index knows exactly the files that were crawled, and a search finds
    exactly those whose text matches; a document that is kept because its metadata or
    the hash of its content did not change is taken to hold the same text.
  - `store::search_laws`, `store::answer_laws`: a search over an index finds exactly the
    documents whose contents match, by the contents they were indexed from, which
    builds, updates and deletions keep.
  - `store::merge_laws`, `store::live_laws`, `store::merged_laws`: merges replace their
    sources by their live documents, and change no contents and no answers; nor what is
    known, where nothing was patched since they were prepared.
- `crawler`, `snippet`, `report`, `bench` — what is indexed, and what is shown.
- `rounding` — fractions as a floating-point number holds them, for what is shown.
- `daemon` — the protocol, the sessions and the scheduling of the background daemon
  as state machines.
- `fs`, `harness` — injected faults, and the states of the crash test.

Every public function says in its contract what it returns. The accounted heap depends
on what the allocator reserved: the contract says that it is the sum over some reserve
that there may be (`index::reserve`), and functions that take the reserves as arguments
give the sums. What comes from outside crates (checksums, hashes, word boundaries,
JSON) stands behind small functions marked `#[verifier::external_body]`, whose doc
comments say what is believed of them.

## The program

`app/` does what the library only decides: it walks the tree, maps and writes files,
takes locks, sleeps, and speaks over sockets. It hands the library paths with `/`
between the names, on every platform. Scores are floating-point numbers and are
computed there too.

`tests/` runs the library on an index in memory, with faults at every operation.
