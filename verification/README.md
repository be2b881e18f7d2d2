# World editor for Championship Soccer

A library, verified with Verus, that reads and edits the worlds of
Championship Soccer (league files, the international file, team and player
files) and writes them back with everything it did not change kept as it
was; and a small egui program around it.

## Layout

- `src/` — the verified library.
  - `text.rs`: the text operations the file formats need (trimming, lines,
    words, numbers, the order of texts, a stable sort by key).
  - `encoding.rs`: UTF-8 and Windows-1252 files, and what a read gives back
    of a write.
  - `leagues.rs`: league files and the country blocks of the international
    file, their parsers, the club edits of a league and their laws.
  - `world_load.rs`: a world from the files of its League folder.
  - `world_edit.rs`: creating and removing leagues, divisions and clubs,
    synchronising the international file, clubs without a league.
  - `league_save.rs`, `world_save.rs`: the text written for a league and for
    the international file, and the file changes of a save.
  - `save_laws.rs`: a league saved unchanged is written back byte for byte,
    in UTF-8 or in Windows-1252 (`read_league`), and writing the
    international file keeps its lines.
  - `teams.rs`: team files (kits, reputation, roster), player files and the
    colour table.
  - `rosters.rs`: what the editor lists: leagues, country blocks and
    divisions in their order, the search, and the clubs of the team list.
  - `league_dialogs.rs`, `country_display.rs`: the state of the editing
    windows and the names shown for countries.
- `app/` — the program: the windows, and every read and write of a file,
  handed to the library as plain values.
- `tests/` — tests of the library on concrete files.

Each public function states in its contract what it returns or changes,
over the plain-value models of the files; the laws (`law_*`) state what
holds across calls.
