# ephemeral_file

An append-only file that keeps its last bytes in memory. Writes go to a tail buffer; a full tail
is frozen, flushed to disk and let go of. Reads see every byte at every moment, wherever it is.

- `src/file.rs`: the file, one step of a write, and the start and end of a read
- `src/model.rs`: the mathematical model that the contracts are stated over
- `src/laws.rs`: what holds over several steps, such as that a read gives back a write
- `src/name.rs`, `src/path.rs`: names of ephemeral files and where they are put
- `app/`: disk I/O and locking around the library

The library does no I/O. It says what to flush where and what to read from where, and is told how
that went. `path::join` is the only function whose contract is taken on trust.
