# gpiosentry

A GPIO watcher for the Raspberry Pi: pins and actions are described in an INI
file; when a pin holds its trigger level for the configured delay, the
configured action runs (an HTTP GET or POST, or a program).

The library under `src/` is verified with Verus:

- `decimal` — decimal pin numbers and delays, with the syntax of std's `FromStr`.
- `utils` — telling URLs from file paths, URL normalisation (through the `url`
  crate), and the action a method number stands for.
- `document` — INI sections as plain values, read through `rust-ini`.
- `conf` — `PinConfig`, the per-key setters, and the settings of a whole file,
  including the automatic counterpart triggers; laws on their shape.
- `gpiopins` — the pins to watch and the state the watch loop starts from.
- `monitor` — one check of a configuration and one pass of the watch loop;
  laws on the countdown and on settled levels.

`app/main.rs` is the program: command line, file and GPIO access, HTTP
requests and commands. `tests/` holds the tests.
