# co_worker_lite

A local chat backend: sessions and memories in SQLite, a GGUF model run by llama.cpp, an
HTTP API in front of it, and an agent loop that hands tool calls to the client.

`src/` is the library: the rules of the backend, with contracts that Verus proves. It
decides what is asked of the database, the model files and the engine, and what is answered:

- `api/turn.rs`: the path of a request from its check to its answer, as a machine that
  names one action at a time; the other files of `api/` are its endpoints
- `context.rs`: fitting the history of a session into a context window
- `tools/`: the tool catalog, the preamble that teaches it, and the parser of tool calls
- `model/`: presets, the course of a download and its digest, and that of a generation
- `memory.rs`: facts about the user, read from what the user says
- `db/`: what the rows of the tables mean, and what the statements do to them
- `config.rs`, `error.rs`, `types.rs`: settings, errors, requests and responses
- `text.rs`, `json.rs`, `ids.rs`: the vocabulary of the contracts, and the calls into
  `serde_json` and `uuid` that they rest on

What stays outside of it: the SQL itself, HTTP, files, sampling and everything in floating
point, and the shapes of the JSON bodies.

`app/` is the program around it: command line, HTTP routes, SQL, downloads and the engine.
It performs the actions that the library names and hands back what came of them.

`tests/` runs the library.
