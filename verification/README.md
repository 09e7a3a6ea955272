# infiltrator

A verified library for searching Minecraft storage dumps: Sophisticated
Backpacks save files, container and player dumps (JSON or binary NBT), and the
block entities of world region files. Every function in `src/` carries a
contract that Verus proves; the calls into fastnbt, flate2, base64 and
serde_json stand behind small trusted wrappers whose contracts are written
next to them.

Layout:

- `src/text.rs`, `src/model.rs`: text helpers, item stacks and entries.
- `src/nbt_value.rs`, `src/json_value.rs`: the library's own NBT and JSON
  values, and the decoders that fill them.
- `src/parse/`: backpack files, NBT and JSON dumps, SNBT, Create contraptions.
- `src/search.rs`: the query language and the search form.
- `src/store.rs`: a loaded file, its entry summaries, filtering.
- `src/dumper.rs`: the world scanner's rules (containers, vault totals,
  region files, chunk scanning).
- `src/workspace.rs`, `src/profiles.rs`, `src/display.rs`, `src/settings.rs`,
  `src/report.rs`, `src/atlas.rs`, `src/assets.rs`, `src/color.rs`: the viewer's
  state and small helpers.
- `app/`: the command line (`--parse <file>`, `--dump <config.json>`, or a list
  of files to open), file I/O and the settings file.
- `tests/`: tests run against the compiled library.
