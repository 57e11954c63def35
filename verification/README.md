# memlog

`/dev/memlog` is a per-uid kernel ring that keeps what a process is about to drop,
so that the record outlives the process. This crate holds the userspace side.

- `src/` is the library, `libmemlog`. It frames and reads records (`record`), names
  the session of a record (`session`), writes snapshots atomically and within a
  quota (`persistence`), drains a device into snapshots (`daemon`), reports on them
  (`status`), reads the command line (`cli`), and holds the sources that state the
  mode of the device against each other (`mode_contract`). Every function in it is
  verified with Verus against its contract, but for three short ones around the
  standard library (two in `quote`, one in `session`), whose contracts are trusted.
- `app/` is the program `memlog-witness`: it carries out the library's requests.
- `tests/` runs the library on disks in memory, and holds its text and number
  functions against the standard library.

The library touches no file, clock or stream. An operation that needs one hands out
a `storage::Request`, and goes on with the `storage::Reply`. What follows for the
disk is stated in `disk`, `durability` and `delivery`: a snapshot is there whole or
not at all, whenever the work is cut short; trimming removes the oldest snapshots and
no more of them than it must; every record of a drained device has had a snapshot of
its own, which is there unless it was removed to make room.

```text
memlog-witness daemon [--out <dir>] [--device <path>] [--quota <bytes>]
memlog-witness status [--out <dir>]
memlog-witness drain --session <id> [--out <dir>]
```

Without `--out`, snapshots go to `memlog` in the directory of the home directory
that `MEMLOG_STATE_DIR` names, `.local/share` if it is not set.
