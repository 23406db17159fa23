# ziper

An in-memory zip archive for JavaScript: files and folders are put in and looked up by path, the
archive is written out in several forms, and archives are read back.

The library under `src/` is verified with Verus:

- `path`, `path_laws`: how names become keys, how names found in an archive are made safe
- `files`, `index`, `entry`: the table of files and folders, how a key is found in it, its invariant
- `order`: the order in which entries are written
- `archive`: the zip crate, with what is believed of it
- `content`, `object`, `options`, `error`, `text`, `time`: values that go in and come out
- `jszip`, `listing`, `generate`, `load`: the operations of the archive
- `laws`: what holds of the archive as a whole

`app/` is the JavaScript class around it, and `tests/` runs the library.
