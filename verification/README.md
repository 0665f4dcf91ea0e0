# pacefinder

Generates Kodi-format NFOs and posters for a One Pace media library and
queues missing releases to qBittorrent.

## Layout

- `src/` is the verified library (Verus). It holds the release filename
  grammar (`matcher`), magnet parsing and URL decoding (`dl`), form and
  URL encoding for the qBittorrent Web API (`qbittorrent`), path
  arithmetic on UTF-8 paths (`paths`), the Kodi NFO model and its
  conversions (`model`, `nfo::kodi`), the authorship marker our NFOs carry
  (`nfo::marker`), JSON values as plain data and the key search over them
  (`json`), the computing half of each metadata
  source (`source::onepacenet`, `source::spykernz`, `source::sheet`), the
  source chain (`source::composite`), the HTTP cache's naming and
  freshness rules (`source::cache`), and the decisions of the `generate`,
  `download`, `reorder` and `scan` commands.
- `app/` is the command-line program around it: argument parsing, logging,
  HTTP, the filesystem, XML and JSON decoding, and the terminal prompt.
- `tests/` exercises the library on concrete values.

Laws the library keeps are public proof functions next to the code they
speak of (their names start with `law_` or end in `_round_trip`).
