# steadcopy

Card-copy tool for video and photo work: a card is copied to one to four
destinations, every copy is read back and compared with the source hash, each run
leaves a manifest next to the copied data and a plain-language report, and a card is
formatted only after a verified backup is proved to cover everything on it.

The library (`src/`) is written in Verus: each public function carries a contract,
and Verus proves the code against it.

## Layout

- `src/text.rs`, `src/i18n.rs`: strings and numbers as text, the two languages.
- `src/organize.rs`: path templates, placeholder vocabulary, folder-name rules.
- `src/map/`: the copy map (a tree of destination folders with devices assigned to
  nodes): its invariant, every edit (add, rename, move, remove; each keeps a
  well-formed map well-formed), string-template import/export, refresh from disk.
- `src/config/`: projects, destinations, settings, the configuration check, and the
  decisions around reading and writing the configuration file.
- `src/device/`: volumes, device kinds and the device memory, eject, the safety
  checks before formatting a card.
- `src/engine/`: hash algorithms (xxh64, MD5 through their crates), streaming hashing,
  read-back verification verdicts, copy-pipeline results.
- `src/manifest/`: the manifest written with each run, its audit against what is on
  disk, the resume ledger, MHL output, file names, and `Moment`, the point in time
  every record carries (its calendar reading and RFC 3339 text come from `time`).
- `src/task.rs`, `src/ledger/`: what a task reports, the task ledger's records and
  queries, the HTML report.
- `src/update.rs`: update-origin allow list and the after-install version check.
- `app/`: the command line around the library: files, threads, SQLite, JSON.
- `tests/`: tests of the library through its public interface.
