# nimpipe

A local proxy that makes NVIDIA NIM models usable from any OpenAI-compatible
client. This crate holds its logic as a Verus-verified library:

- `src/json.rs` — JSON values as plain data, their model (objects as maps),
  and the object operations; the JSON text layer (`serde_json`) is reached
  through two trusted calls.
- `src/models.rs` — the model registry: building it from the registry file
  (refusing duplicate ids), lookup, listing in id order, writing it back.
- `src/transform.rs` — rewriting a chat-completion request for the upstream
  model: model id, stripped parameters, defaults, `max_tokens` cap, injected
  (dotted) parameters.
- `src/sse.rs` — rewriting the event stream: reasoning copied to content,
  JSON comment lines dropped, and the framing of the stream into events.
- `src/server.rs`, `src/proxy.rs`, `src/cli.rs`, `src/config.rs` — the
  decisions of the HTTP handlers, the upstream client, the command line and
  the configuration files.
- `src/text.rs` — character-level helpers (ordering, splitting, replacing).

`app/` is the program around it: HTTP server, upstream client, files,
logging, command line. `tests/` exercises the library.
