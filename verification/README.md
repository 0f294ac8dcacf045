# local_rag_app

The verified core of a local knowledge-base assistant (a desktop app that
vectorizes the `.txt` / `.md` files of a chosen folder into a local vector
store and answers questions over them with a locally run Ollama model).

- `src/` is the library, written in Verus. It holds the text chunker, the
  source-folder layout and listings, the naming of moved files, hardware-based
  model selection, locating Ollama and reading its newline-delimited JSON
  streams, the retrieval-augmented chat prompt, the reading of search results,
  the configuration changes the commands make, and the decisions of the
  offline update installer. Its functions carry contracts that Verus proves;
  the few calls into `std`, `uuid`, `dirs` and `sysinfo` that it makes go
  through trusted wrappers, whose contracts are stated, not proved (each says
  in its doc comment what it claims). Proof functions named `lemma_*` state
  the library's laws, for example: the chunker loses no paragraph, keeps a
  long paragraph's windows together and bounds every chunk; a hard split
  rejoins to its text; listings are sorted and keep every text file; the
  lines read from a stream are those of all the bytes received, however they
  were cut into chunks; a streamed reply is the messages up to the first
  `done` line.
- `tests/` runs the library on concrete values.
- `app/` is the desktop shell in plain Rust: the Tauri commands, file system
  and process work, HTTP calls to Ollama, JSON parsing, and the LanceDB store.
  It hands what it reads to the library and acts on what the library decides;
  the download and pull progress, which is a floating-point percentage, is
  computed there.
