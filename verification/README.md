# rinha_vini

Fraud scoring by vector search: a verified library, and the programs around it.

A scoring request is turned into a vector of 14 components. The five nearest of some millions of
labelled reference vectors decide: with fewer than three frauds among them the request is approved.
A malformed payload is approved, and no request is answered with a server error.

- `src/` is the library. Verus proves every item of it against its contract.
  - `bytes`, `timestamp`, `parse`, `vector`: from the bytes of a payload to a query.
  - `members`, `payload`: that a payload is read back as it was written, in any order of its
    members.
  - `http`, `connection`, `service`: requests, the state of a connection, and responses.
  - `index`, `top5`, `pairs`, `warmup`: the index file and the search.
  - `references`, `builder`: reading reference data and building an index file.
- `app/` is the server and the tool that builds an index. It holds the sockets, the files and the
  floating-point arithmetic.
- `tests/` runs the library on concrete values.

The library computes with no floating-point number. A component of a query is an exact expression
over the decimal texts of the payload, and a distance is known by an integer code that is smaller
exactly when the distance is.

Contracts that are believed and not proved stand at three wrappers: `references::gunzip` calls
`flate2`, and `index::select_nearest` and `builder::sort_by_cell` call the standard library.
