# idavoll-grf-extractor

Extracts a Ragnarok Online `.grf` archive to disk, translating the Korean segments
of its internal paths to English, and generates the headgear slot table from the
client's `accname_eng.lub` and rAthena's item database.

The logic is a Verus library under `src/`, verified against its contracts:

- `translate`: the segment-by-segment path translator, its miss log and the
  TOML key quoting; the laws of translation (ASCII paths unchanged, dictionary
  priority, how misses accumulate, the key round trip) are proof functions there.
- `headgear_slots`: the accname scanner for the compiled Lua table, the parser of
  `item_db_equip.yml` and the join that builds the slot table, with their laws.
- `archive`: the well-known entry paths and the case-insensitive entry lookup.
- `keyset`, `text`: sorted string sets and character-sequence helpers.

`app/` holds the command line program: argument handling, file I/O, TOML
reading and writing with serde, and the archive reader.
