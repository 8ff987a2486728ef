# mustream

A small music server: it scans `~/Music` for mp3 files, keeps their tags in
SQLite, lists, streams, renames and deletes them, and searches, previews
and downloads audio through `yt-dlp`.

- `src/` is the verified library (Verus). `path` models Unix path
  components, joining and prefix tests, and grants request paths under the
  music root; `text` trims, removes `..`, splits lines; `order` sorts
  listings stably by a string key; `song` builds song records from tags
  and steps through finding a listed file's record; `routes` holds the
  request and reply types and the decision each route makes.
- `app/` is the program around it: the axum routes, the SQLite store
  (sqlx), tag reading (lofty), directory walks and `yt-dlp` processes.
- `tests/` runs the library on concrete values.
