# ubercollec

A personal collection manager (comics, books, records, films, custom
collections) whose data are plain YAML files. The logic is written in Verus
and proved against its contracts; the program around it is ordinary Rust.

## Layout

- `src/` — the verified library:
  - `text`, `value`, `json`: strings, JSON-like values (written out by
    serde_json) and string-keyed maps;
  - `model`: schemas, fields, select options and their shelf-mark codes;
  - `store`: internal IDs, shelf marks (`YYYY-GENRE-NNNN`), counters,
    item creation and update, shelf-mark regeneration, series registry;
  - `import`: CSV preview, column mapping, duplicate detection and the
    record-by-record import;
  - `replay`: why importing the same table twice adds nothing;
  - `hydrate`: catalogue answers (BNF, Google Books, OpenLibrary,
    MusicBrainz, Discogs, TMDB) turned into candidates and fields;
  - `enrich`: planning and bookkeeping of bulk enrichment;
  - `index`, `export`, `stats`: search rows and SQL, CSV/JSON export,
    dashboard and series gaps;
  - `sync`, `mobile`: the Git commands to run and how their output is read,
    the read-only snapshot.
- `app/` — files, SQLite, HTTP, Git processes, image conversion and the
  commands of the desktop shell, calling the library.
- `tests/` — tests of the library on concrete values.
