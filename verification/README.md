# Storyteller OPDS proxy

A proxy for OPDS 1.x clients in front of a Storyteller server. Clients see only the books that
Storyteller offers in the readaloud format, and get them without audio and media overlays.

- `src/` is the verified library.
  - `opds`: which entries and links of a catalog stay, and where the links lead.
  - `download`, `zip_path`: which files of a book stay, and what its package document becomes.
  - `download_queue`: what a request for a book is told, and when its preparation starts.
  - `http`: what a request asks for, and what it is answered.
  - `config`: the settings.
  - `xml`, `web_url`: documents and URLs as plain values, read by quick-xml and url.
  - `text`, `numbers`, `rewriting`, `error`: what the others share.
- `app/` is the program around it: connections, upstream requests, files and threads.
- `tests/` runs the library on concrete requests, catalogs and books.

Every public function states what it returns or changes; the functions named `law_` state what
holds across them. What the library takes on trust stands behind the functions marked
`external_body` in `xml` and `web_url`.

## Settings

| Variable | Default | Meaning |
| --- | --- | --- |
| `STORYTELLER_URL` | `http://localhost:8001` | The Storyteller server. |
| `PUBLIC_URL` | the host of the request | The address that links in catalogs lead to. |
| `LISTEN_ADDR` | `0.0.0.0:8088` | The address that the proxy listens on. |
| `CACHE_DIR` | `./cache` | The directory for prepared books. |
| `CACHE_TTL_SECS` | `86400` | How long a prepared book is reused; `0` serves it once. |
| `MAX_BODY_BYTES` | `5368709120` | How many bytes of an upstream response are read at most. |
| `THREADS` | `4` | How many requests are handled at a time. |
