# locksmith

Automatic multi-step decoding of text. A set of decoders (Base32, Base58,
Base64, binary, Caesar, hex, HTML entities, Morse, reverse, URL, the 312
cipher, decimal codes, character filters) is applied layer by layer to an
input; every candidate is rated by a set of scorers, and the search returns
the candidates, highest score first.

The library in `src/` is verified with Verus:

- `engine` — steps, results, decoder policies and the decoder engine;
- `decoders` — the decoders, their catalog and their registration;
- `scorer` — the scorers and the scoring engine;
- `sort` — the stable descending order used to rank candidates;
- `search` — the layered search with beam pruning and deduplication;
- `chains` — what holds of every chain the search returns;
- `wordlist`, `worker` — word lists read from text, and one search request;
- `text`, `outside` — text helpers, and the calls into `fast32`, `bs58`,
  `urlencoding` and std whose contracts are trusted.

`app/` is a small command-line program that reads `input.txt` and the system
dictionary and prints the ten best decodings.
