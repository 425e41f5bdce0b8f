# azcp

Copies files between a local file system and Azure Blob Storage, on one machine or on every node
of a cluster. The library is verified with Verus: every rule by which files are listed, compared,
split, assigned, retried, paced and checked has a contract that is proved.

## Layout

- `src/` holds the library.
  - `text`, `units`, `binary64`, `encoding`, `address`: characters and numbers, sizes and
    bandwidths, Base64 and percent encoding, addresses.
  - `config`, `error`: settings and errors.
  - `auth`: which credential is used, and what its answers mean.
  - `storage`: locations, local entries, the requests of the blob service and its answers.
  - `engine`: blocks, shards, filters, the index of files, pacing, outcomes and progress.
  - `cli`: the plans of `copy`, `sync`, `ls`, `rm` and `mk`.
  - `cluster`: file lists, owners, shards, the plan of a broadcast and its stages.
- `tests/` runs the library on concrete values.
- `app/` is the program: arguments, files, HTTP, MPI and the terminal.

What the library takes from other crates is marked `external_body`, each such function with a
comment that says what is believed of it. Properties that relate several functions are the proof
functions whose names begin with `law_`.
