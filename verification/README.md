# ncos-assistant

A COSMIC panel applet that answers questions about NCOS with a local
Ollama model, grounding its answers in markdown documentation
(retrieval-augmented generation).

- `src/` is the verified library (Verus). It holds the chunking of
  documents, the choice of indexed files, the bookkeeping of an index build,
  the Ollama protocol decisions (addresses, error classification, decoding
  of streamed replies), the prompt grounding, and the applet's state
  machine with the texts it shows. Every public function states its result
  in its contract; `law_*` proof functions state properties across calls.
- `tests/` runs the library on concrete inputs.
- `app/` is the applet shell: COSMIC windows and widgets, HTTP with
  `reqwest`, the file system, and the floating-point retrieval over the
  stored embeddings. It performs the actions the state machine asks for.
