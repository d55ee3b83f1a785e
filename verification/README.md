# editor

A vim-like editor in which several people edit one file together, with its core verified by
Verus.

## Layout

- `src/` — the verified library:
  - `append_only_str`: a string that only grows, shared by slices into it;
  - `piece`, `table`, `transfer`: the piece table holding a document, the bookkeeping of its
    locks, and its encoding;
  - `text`: several clients editing one document, each typing into pieces of its own;
  - `btep`: the binary protocol between server and clients;
  - `session`: what the server (and every copy of a document) does with a client's message,
    and which connected clients it passes on to, also when a connection is lost;
  - `keys`, `trie`: keys, the key bindings of each mode and how pressed keys are matched;
  - `editor`, `screen`: the editing client — buffers, cursor movement, commands — and what it
    draws on the terminal;
  - `bufread`, `iters`, `encoding`, `utils`: UTF-8 reading, small iterators, cursor positions.
- `tests/` — tests of the library.
- `app/` — the program around it: command line, networking, terminal input and output.

Run a server with `editor server <path>` and connect with `editor client`; `:help` in a client
lists the bindings.
