# fraud_detection

A fraud detector for card transactions, verified with [Verus](https://github.com/verus-lang/verus).
A request is read, turned into a vector of quantised dimensions, compared with
labelled reference vectors, and answered with a score: the share of its five
nearest neighbours that were fraud. With three of five or more it is refused.

## Layout

`src/` is the library. Every function in it is verified, but for the few that
call an outside crate: their contracts are trusted.

| Module | What it holds |
|--------|---------------|
| `scan`, `le`, `single`, `selection`, `ranked` | bytes, stored integers, fractions by their bits, the smallest of a list, short ranked lists |
| `fraud::json`, `fraud::numerals`, `fraud::calendar` | reading a request: its layout, its numbers, its moments |
| `fraud::vector` | the sixteen dimensions of a request and its partition |
| `fraud::data`, `fraud::search` | index files, and the search through boxes of clusters |
| `fraud::knn`, `fraud::model` | the two-stage search in blocks, and the thresholds of the model |
| `net`, `server` | HTTP requests, canned responses, and the steps of a connection |
| `repository`, `service`, `usecase`, `domain`, `web` | the web service: references, features, decisions, requests |
| `index_builder`, `archive` | building index files and packing them |
| `balancer`, `config`, `env`, `metrics` | the load balancer and the surroundings |

What holds of the library as a whole is stated in public proof functions beside
the code it speaks of, and in `fraud::search_laws`, `fraud::json_laws` and
`net::http_laws`.

Fractions do not occur in `src/`. Where a fraction is only compared or passed on
it is held by its bits or by the text that spells it; what is computed with it is
computed in `app/` and handed to the library as plain values.

The library calls `memchr` to search bytes, `smallvec` for short lists, `chrono`
for the calendar and `flate2` to compress. The calls of `memchr` and the wrappers
around the others' are trusted, not proved: what the library relies on in these
crates is stated there, beside what each of them is said to do.

`app/` holds the programs: the event-driven server (without an argument), `lb`,
`web`, `build-index` and `preprocess`. `tests/` runs the library with the outside
crates.
