# nachlass

Tools for an edition of Wittgenstein's Nachlass: search records, PDF and EPUB
preparation, covers, correspondence diagrams and the English translation of the
remarks. The library is written in Verus; each function states what it computes in
its `requires`/`ensures` and is proved to do so.

## Layout

- `src/` — the verified library.
  - `text.rs`, `markup.rs` — characters, lines, trimming and the Markdown/HTML patterns
    of the edition.
  - `search/` — heading slugs, parsing remarks into search records.
  - `pdfs/`, `ebooks/` — preparing Markdown for the PDF and EPUB renderers.
  - `covers/` — cover data, the SVG text layer and the circle layer.
  - `visualize/` — correspondences between works and source documents, which remarks a
    diagram shows, and the bands between them.
  - `translate/` — documents and glossary, prompts, emphasis and math handling,
    verification of translated remarks, sibling reuse, batching, and the decisions of
    the translation, check and DeepL runs as step functions (`flow.rs`, `deepl.rs`).
- `tests/` — tests of the library on concrete values.
- `app/` — the command-line programs: argument handling, files, HTTP calls to the
  translation services, git, and the floating-point layout of diagrams and covers.

The library calls the standard library's Unicode tables and the `regex` crate only
through a few small trusted functions in `text.rs` and `translate/verify.rs`, each
documented with what it is believed to return.
