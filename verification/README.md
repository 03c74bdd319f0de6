# alters-save-core

A parser and editor for save files of *The Alters* (11 bit studios),
written in Verus: every function of the library carries a contract that
states exactly what it reads and writes, and Verus proves the code against
it.

A world save is a plaintext prefix followed by zlib chunks; the
decompressed body is a stream of length-prefixed strings, tagged properties
and sized spans. The library locates and edits:

- resource containers (`resources`) and the load-screen counts that mirror
  them in the prefix (`meta`);
- the item stack list, including injecting a new stack by cloning an
  existing record (`items`);
- the game clock (`time`), research arrays (`research`), and per-alter
  emotions and radiation (`alters`);
- the outer framing: chunk parsing, recompression and the two
  EOF-relative size fields (`sav`).

`editor` offers the two whole-file operations a front end needs (a summary
of what is editable, and applying a set of edits), and `verify` runs the
self-check battery on one file. `roundtrip` and `edit_laws` hold the
proved laws: a rebuilt file parses back to the same body and prefix
(when its framing is found where it was written, which fails for instance
for a compressed payload under 1000 bytes), and every edit changes exactly
the bytes it names. `reparse`, `injection`, `time_laws`, `research_laws`
and `alters_laws` prove what reading an edited body gives back: the new
amount, count, clock, emotion or radiation value, the injected stack in
front of the old ones, the appended research paths (a second completion
changes nothing, and completing what is missing leaves nothing missing).
`editor_laws` proves that applying no edits rebuilds a file that parses
back to the same body, and what a passing check battery has established.
These read-back laws hold when the edited bytes lie apart from the bytes
the parsers read, as in the documented record layout; each lemma's doc
comment names the conditions.

The only length precondition is that a buffer hold at most `isize::MAX`
bytes, which every Rust slice does on 32- and 64-bit targets alike
(WebAssembly included).

Outside crates do the work they are good at behind small trusted wrappers
whose contracts are stated in their doc comments: `memchr` for substring
search, `flate2` for zlib, `az` for a lossless integer cast, and the
standard library's UTF-8 decoding.

`app/` holds the command-line tool (`show`, `corpus`) and the WebAssembly
bridge that carries summaries and edits as JSON.
