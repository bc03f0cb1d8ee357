# auto_rename_screenshots

A command line tool that renames a folder of screenshots to a configured list
of names, optionally packing the result into a zip or 7z archive.

- `src/` is the verified library (Verus): the configuration and how `add` and
  `remove` edit it (`mods/config.rs`, `mods/types.rs`), the command line values
  (`mods/cliinput.rs`), the path order (`mods/order.rs`), and the decisions of a
  rename: matching the number of inputs to the number of names, pairing them,
  the compression step, and the breadth first walk of a folder tree that
  zip packing uses (`mods/file.rs`).
- `app/` is the program around it: argument parsing, the JSON configuration
  file, directory listing, copying, deleting and archiving.
- `tests/` runs the library on concrete values.
