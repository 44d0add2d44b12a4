# File Guardian

Detects changes to the files of a folder. `scan <folder>` records the SHA-256
digest of every file (subfolders included) in a baseline text, encrypts it
with a key derived from a password and writes `baseline.enc`. `check <folder>`
decrypts the baseline, hashes the folder again and reports each file as
unchanged, modified, new or deleted, on the terminal and in `report.txt`.

Layout:

- `src/` — the library, verified with Verus:
  - `crypto.rs`: key derivation, XOR encryption and decryption, file digests;
  - `paths.rs`: path components, their order, the relative path of a file;
  - `unix_path.rs`: how a Unix path splits into components, what stripping
    leading components leaves of it, and joining paths;
  - `baseline.rs`: the baseline map, its text form and the reading of it;
  - `report.rs`: comparing two baselines, the report and its summary;
  - `cli.rs`, `errors.rs`: command line, password input, error messages;
  - `bytes.rs`, `strings.rs`: byte and UTF-8 helpers, whitespace trimming.
- `app/main.rs` — the program: command line, file system, terminal.
- `tests/` — tests of the library on concrete values.
