# op_cache

The verified core of `op-cache`, a caching front end for 1Password CLI
secret references (`op://vault/item/field`).

- `src/` is the library, verified with Verus:
  - `env_file`: `.env` parsing (`KEY=VALUE`, quoted values, comments, empty lines).
  - `run`: finding the distinct `op://` references of an environment, merging
    an env file into the process environment, substituting resolved secrets.
  - `inject`: the single `op inject` template for many references, splitting
    its answer back into per-reference values, and the random delimiter text.
  - `resolve`: the decisions of a resolution (cache hits served, misses batched).
  - `secret_map`: the reference-to-secret map.
  - `text`: character-level helpers (Unicode trimming, searching, building strings).
  - `cli`, `error`: the command line and the error type as plain data.
- `app/` holds the edges Verus does not see: clap and thiserror derives,
  reading env files and `/dev/urandom`, driving a resolution against the cache
  daemon's client, and exec'ing the command.
- `tests/` runs the library on concrete inputs.
