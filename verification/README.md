# ppgen

Generates easy-to-remember passphrases from the EFF large word list (7776
words), or random passwords from `A-Za-z0-9` (optionally with 26 symbols).

- `src/` is the library, verified with Verus:
  - `args` reads the command line into a `Command`; every accepted option
    set and every refusal message is stated in `parse_args_spec`.
  - `opts` holds the request types and the entropy report.
  - `entropy` decides `-b` and rounds the entropy report in exact integer
    arithmetic: `n` words reach `b` bits exactly when
    `7776^n * 10^digits >= 2^b`.
  - `bignat` holds the arbitrary-size naturals that this needs.
  - `generate` draws words and characters by rejection sampling from the
    operating system's random source (`getrandom`).
  - `text` renders and parses decimal numbers and capitalises words.
- `app/` is the command-line program: argument and word-list input, output.
  It reads the word list, one word per line, from the file named by
  `PPGEN_WORDLIST` (default `/usr/share/ppgen/wordlist.txt`).
- `tests/` runs the library on concrete inputs.
