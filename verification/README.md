# Dynon USB Updater

Prepares the USB drives a Dynon SkyView pilot carries to the aircraft: copies
each AIRAC cycle's aviation and obstacle databases onto them and rebuilds their
approach plates from the cycle's plates archive.

The decisions live in a library whose contracts are machine-checked; the desktop application around
it does the reading, writing and drawing.

## Layout

- `src/` — the verified library
  - `text.rs` — characters: case, digits, whitespace, searching, decimal text
  - `scan.rs` — cycles in file names, database kinds and ranking, the walk for
    `.dup` files, and how a plates archive's entries are placed
  - `checker.rs` — reading Dynon's download pages, choosing the current listing,
    and what the server's replies mean
  - `drive.rs` — recognising a SkyView drive, room for an update, and why a
    drive list is empty
  - `job.rs` — one drive's update as a sequence of steps, its outcome, and the
    engine's wording
  - `ui.rs` — what the window decides and says
- `tests/` — tests of the library
- `app/` — the GTK application: files, drives, the network and the window
