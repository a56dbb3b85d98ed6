# typst-web

A local-first tool for Typst note projects: it loads a workspace (a local directory
or a GitHub repository), indexes its `.typ` files, extracts `flashcard(q, a)` cards
and schedules them with an SM-2 style spaced-repetition algorithm, builds the graph of
links between notes, and renders notes and cards with the Typst compiler.

## Layout

- `src/` is the verified library (Verus). Every function there carries a contract:
  - `text`, `paths`: character-level string work, path normalization, decks.
  - `flashcards`, `cards`: finding `flashcard(q, a)` calls, card ids (SHA-256).
  - `graph`, `search`, `browse`, `sorting`: the link graph, fuzzy file search, file
    grouping and the stable sorts of files and package files.
  - `srs`, `session`: review states, rating, review queues and the review session.
  - `project`: the project model of a loaded workspace.
  - `archive`, `packages`, `github`, `remote`: tar archives, `@preview` package imports
    and their fetching, GitHub URLs, blobs and the GraphQL reads.
  - `render`, `cache`: the inputs handed to the Typst compiler, card scratch files,
    excerpts, render cache keys and the render cache.
  - `digest`, `model`: hex digests and the data model.
- `app/` is the Dioxus application around the library: the user interface, file and
  network I/O, JSON, the Typst compile and floating-point geometry and scheduling.
- `tests/` exercises the library on concrete values.

Calls into outside crates (sha2, regex, flate2, tar, base64, time, typst) go through
small trusted wrappers whose contracts are stated next to them.
