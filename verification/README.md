# rustlabs

A collection of small Rust exercises and an offline messenger, with their logic
written as a library verified by Verus.

- `src/` — the verified library. Number exercises (`primes`, `prime_search`,
  `strict_arith`, `checked_arith`, `maximum`, `arith` for the shared mathematics),
  text exercises (`letters`, `text_builder`, `rot13`, `abbreviations`, `hosts`,
  `line_stats`, `song`, `char_checks`, `unicode`, `text` for the shared string
  functions), records (`students`, `word_freq`), a command terminal (`terminal`), a
  bounded cache of primality answers (`prime_cache`), and the messenger's rules
  (`messenger`: message parsing, session state, lobbies, the files of users and
  connected clients, the client's state, the XOR cipher).
- `tests/` — tests of the library on concrete values.
- `app/` — the programs: console input and output, files, sockets and threads,
  one subcommand per exercise plus `server` and `client` for the messenger.
