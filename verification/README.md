# tutor

A small web tutor for conversational language practice with a local model
server (Ollama). The logic is a Verus-verified library; a thin program serves
it over HTTP.

- `src/` — the verified library:
  - `args` — choosing the base directory from the command line;
  - `config` — the YAML key/value configuration and the settings drawn from it;
  - `grammar` — parsing the grammar catalogue (`#` levels, `##` topics) and
    grouping topic titles by CEFR level;
  - `prompt` — filling the `{{KEY}}` placeholders of the tutor primer, and the
    chat and translation requests sent to the model server;
  - `stream` — the state machine that relays the model's newline-delimited
    JSON reply as browser events;
  - `persist` — file names and contents of saved dialogues and vocabulary.
- `app/main.rs` — the server: files, HTTP routes, and the streamed request to
  the model server.
- `tests/` — tests of the library on concrete values.

The program expects, in its base directory, `config.yaml` (or `config.yml`),
`tutor.md`, `french-grammar.md` (or `grammar/french.md`), and the web assets
`index.html`, `style.css` and `app.js`, which it serves as they are.
