# iptv_rs

An IPTV live-source and programme-guide (EPG) aggregator, written as a Verus
library with a thin command-line program around it.

The library (`src/`) holds the logic, each function with a contract that Verus
proves:

- `text`, `numbers`, `assoc`, `sorting`: characters, decimal numbers, text-keyed
  maps and a stable sort by keys, the shared building blocks.
- `config`: `key = value` settings with environment overrides and defaults.
- `source_list`, `playlist`, `rules`, `hosts`: source lists, TXT and M3U
  playlists, aliases, black- and whitelists, address families.
- `aggregate`: merging entries into channels and ordering and filtering their
  streams by IPTV source, whitelist, origin and address family.
- `epg`, `logo`, `output`, `metadata`: programme guides, logos, result
  playlists and the stored result metadata.
- `service`, `fetch`, `update`: the decisions of the HTTP service, of fetching
  and of an update run.

The program (`app/`) reads and writes files, fetches sources over HTTP, parses
the command line and runs the HTTP service, calling the library for every
decision.

```sh
iptv-rs update --config config/config.ini
iptv-rs serve --config config/config.ini
```
