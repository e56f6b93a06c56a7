# rinha_fraud

Fraud scoring for card transactions: a request body is scored by rules and a decision tree, and
compared with labelled reference vectors by five-nearest-neighbour search.

`src/` is the library. Every function in it carries a contract that Verus proves, but for the
wrappers around the standard library and `smallvec`, which are believed: the sort in `index::plan`
and the list in `request`, whose contracts say what those calls do, and the two readings of the clock
in `index::instrument`, of which nothing is claimed.

| module | what it holds |
| --- | --- |
| `scanning`, `http` | finding bytes, message bounds, routes and answers |
| `connection` | tokens, buffers and the decisions of the event loop |
| `settings` | what the words of the environment mean |
| `time`, `calendar` | timestamps and weekdays |
| `request`, `vector` | scoring requests and their feature vectors |
| `fraud_scoring` | scoring of compact bodies |
| `placement` | why the identifier of a request has no part in its score |
| `tokens`, `key_values`, `written`, `agreement` | why a request and its body have the same vector, whatever white space stands between the tokens |
| `reference` | labelled references in JSON |
| `index` | the bucketed index: layout, file format, searches, and why they find the nearest points |

Numbers that need floating point are handed in by the caller: `vector` and `fraud_scoring` take
functions that scale and compare the decimal texts of a request.

`app/` holds the program: sockets, threads, memory mapping, deserialisation, floating point.

- no argument: the server. `MODEL_PATH` names the file with the decision tree, one node per line
  (`leaf 0`, `leaf 1`, or `split FEATURE THRESHOLD AT_MOST ABOVE`).
- `build-index [FILE]`: reads references from standard input and writes an index file.
- `search [FILE]`: reads a request from standard input and asks an index file.

`tests/` runs the library on given values.
