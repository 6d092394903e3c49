# talon-sandbox

A client library for the Talon Sandbox HTTP API, with its logic verified by Verus.

- `src/` is the verified library: parsing of sizes and durations, request
  bodies and paths, path cleaning and percent-encoding, error classification
  from HTTP statuses, label matching, network-policy normalisation, the
  process-polling and PTY state machines. Each public function states what it
  returns in its contract; the `lemma_*` proof functions state laws that span
  several calls.
- `app/` is the unverified shell around it: the `reqwest` client, the async
  handles (`Sandbox`, `Fs`, `Env`, `Browser`, `Terminal`), the polling loops and
  the serde wire types.
- `tests/` exercises the library on concrete values.

Quantities such as `1.5GiB` or `2.5h` are read as exact decimals and then
truncated, with no binary floating-point step in between: `1.005KB` is 1005
bytes and `9007199254740993b` is 9007199254740993 bytes. The verified library
holds no floating-point values.
