# qpick

Finds the queries of an index that are nearest to a query, by the words they
share and by word vectors.

- `src/` is the search, verified with Verus. Each function states what it
  returns; functions named `law_...` state what holds of several of them.
- `tests/` runs the search on small indexes.
- `app/` opens the files of an index and writes results out as JSON.

## How it works

The ngrams of a query are spread over shards. A shard maps each ngram to a bucket
of records, one for each query that holds the ngram. `qpick` walks the shards,
`matching` adds up how far each query covers the words and keeps those that are
near enough, and `search` and `cosine` measure the nearest closer. `find` and
`distances` hold the calls that a user makes.

## What is taken as given

- Floating-point operations are carried out by an evaluator that the caller hands
  in (`score`). Comparisons are done on the bit patterns and are proved.
- Taking a query apart, comparing words, placing ngrams and reading word vectors
  are hooks (`hooks`). The contracts speak of whatever they return.
- The maps of the shards were written by a builder of the `fst` crate
  (`map_is_built`, `Qpick::maps_are_built`). A map can be opened over other bytes,
  and looking an ngram up in it may then panic. `build_map` makes a map that meets
  the condition; whoever opens a map from a file vouches for it.
- The laws in `agreement` and `calls`, on two calls for the same query, take the hooks
  to compute functions of texts and numbers. The shards are walked in an order that a
  hash table settles. Without tf-idf it makes no difference; with it, a word counts
  for the first row that covers it, so that the laws ask for the same order.
- The laws in `monotone` hold of arithmetic that keeps numbers in order, as that of
  IEEE 754 does. The others hold of every arithmetic.
- The functions marked `external_body` in `tables` and `index` state what
  `fnv` tables, `fst` maps and `byteorder` do.
