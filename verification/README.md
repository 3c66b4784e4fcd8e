# engine

Resource-pack triage for Minecraft 1.8, with its logic proved in Verus.

Minecraft 1.8 loads a resource pack only when the root of its zip holds
`assets/` and `pack.mcmeta`. The library scans a `resourcepacks` folder,
classifies every entry by what the game can read (normal, nested, folder,
bloated, illegal, illegal in Lunar Client, ignored), plans a processing
batch, and rebuilds fixable packs as clean zips.

## Layout

- `src/` — the verified library.
  - `text`, `names`, `naming`: characters and names (junk, typo'd core
    files, Windows-safe names, collision suffixes).
  - `lunar`, `boundary`: the Lunar Client escape check, its minimal
    repair, and the UTF-8 facts that show the repair keeps the encoding.
  - `archive`, `zipwrite`: zip archives as plain values, read and written
    through the `zip` crate.
  - `fs`, `layout`, `classify`, `folder`, `pack`, `zipscan`, `scan`,
    `tree`: classification and the scan report.
  - `plan`, `shellplan`, `shellzip`, `outcome`, `fixplan`, `rebuild`,
    `misplaced`, `extract`, `order`: the decisions of a processing batch.
  - `update`, `settings`: the update check's rules and the preferences.
- `tests/` — tests of the library.
- `app/` — the command-line program: disk access, the batch's moves and
  rollbacks, the update request, JSON output.
