# rust-dictionary

A Spanish dictionary service. The library (`src/`) holds the dictionary and
its searches, with their contracts proved by Verus:

- `text`, `numbers`: characters, key order, splitting and joining meanings,
  decimal text, trimming; the transliteration and lowercase mappings.
- `word`, `word_map`: dictionary entries, their records, and the map of
  entries: a vector kept in strictly increasing key order and searched by
  halving, whose read-after-write law is proved.
- `collection`: the in-memory dictionary: adding words, lookups by key,
  ignoring accents, by part of a key, at random, by arrangements of letters;
  reading records and the rows written back.
- `permute`: the arrangements of the letters of a combination.
- `rae_raider`: reading meanings off a word's page.
- `env`, `config`, `log`, `dto`, `controller`, `utils`: settings,
  configuration, event logging, listings, request checks, random letters.

`app/` is the server around it: environment, files, HTTP routes and requests.
