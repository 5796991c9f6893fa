# game_info_server

A game information service: `POST /images/game_info/custom/new/{custom_id}/data.json`
answers with the data of the newest version of a game, records the visit of the
client (by UUID or by address, with its GeoIP location and visit times), and keeps
access statistics that are flushed to disk in batches.

Layout:

- `src/` — the verified library (Verus): request parsing (`utils`, `handlers`),
  visit records (`access`), the GeoIP and version caches (`cache`), the statistics
  (`stats`), the configuration (`config`), and helpers for text, decimal numbers,
  JSON values and shared outside types (`text`, `decimal`, `json`, `shared`).
- `app/` — the server around it: HTTP (axum), files, the GeoIP HTTP client, the
  background workers, timing and logging.
- `tests/` — tests of the library.
