# mu

A small agent harness for the terminal: it keeps a conversation with a language
model that streams its replies (a stateless subset of the OpenAI Responses API),
lets the model use a shell, and logs every step.

The rules of the program are a library that [Verus](https://github.com/verus-lang/verus)
verifies; the files, pipes, threads and the screen around it are ordinary Rust.

## Layout

| Path | What it holds |
| :--- | :--- |
| `src/session.rs`, `src/tree.rs` | The log of a session: its records, what is saved and read back, and its tree |
| `src/sse.rs`, `src/api.rs` | The streamed reply: its framing, its events, and the step that it makes |
| `src/tools.rs`, `src/process.rs` | The shell of the model: what is kept of its output, and when it is stopped |
| `src/app.rs` | The program as a machine: keys, commands and events, and what is to be done about them |
| `src/editor.rs`, `src/input.rs`, `src/commands.rs` | The input: editing, mentions of files, completion, commands |
| `src/ui.rs`, `src/transcript.rs`, `src/screen.rs` | The rows of the transcript, and the screen as a whole |
| `src/skills.rs`, `src/instructions.rs` | What the model is told of the project |
| `src/counts.rs`, `src/json.rs`, `src/block.rs`, `src/order.rs`, `src/text.rs` | Token counts, JSON, blocks, sorting and strings |
| `tests/` | The library on concrete values |
| `app/` | The program: terminal, processes, files |

Each function says in its contract what it returns, over the models in the same
file. Proof functions whose names begin with `law_` state what holds of several of
them together. What is taken from other crates, and from the parts of the standard
library that have no contract, stands behind small functions marked
`external_body`, whose comments say what is claimed of them.

## Use

```bash
MU_BASE_URL=http://127.0.0.1:8317/v1 MU_API_KEY=… mu
```

| Key | Default |
| :--- | :--- |
| `MU_BASE_URL` | `http://127.0.0.1:8317/v1` |
| `MU_API_KEY` | *none* |
| `MU_MODEL` | `gpt-6-luna` |
| `MU_EFFORT` | `xhigh` |
| `MU_CONTEXT` | `272000` |

Sessions are kept in `$XDG_STATE_HOME/mu`, or else in `~/.local/state/mu`. The
program needs `curl`, `rg` and `bash`.
