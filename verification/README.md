# rustbox

Five small programs whose logic is written and proved in Verus:

- `chip8` — a CHIP-8 interpreter core: every instruction is specified by a
  state-transition function (`chip8::spec`), `Cpu::tick` is proved against
  it, and `chip8::laws` proves properties such as call/return restoring the
  program counter and drawing a sprite twice restoring the screen.
- `json` — a JSON lexer, parser and two printers, in a borrowing and an
  owning flavour; printed documents are proved to read back unchanged.
- `markdown` — a Markdown-to-HTML converter for headings and paragraphs.
- `kv` — the request logic of a RESP key-value server (`SET`, `GET`, `PING`).
- `guessing` — the rules and score record of a number-guessing game.

`src/` is the verified library, `tests/` exercises it on concrete values, and
`app/` holds the I/O around it: an SDL2 window, a Tokio TCP server, file and
console handling. Run `rustbox <chip8 [rom] | json | md <file.md> | kv | guess>`.
