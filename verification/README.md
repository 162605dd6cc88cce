# Spritz

A nano DLNA media server. Run it in a folder, and that folder's video and audio
files become available to players on the local network.

```
spritz [FOLDERS]... [--port PORT] [--bind ADDR] [--name NAME]
```

## Layout

- `src/` is the library, written in Verus: paths and URLs, media formats and
  probing, the folder tree, DIDL, Browse and Search, SOAP, events, SSDP and byte
  ranges. Every function states what it returns, and the laws that hold across
  functions are public proof functions named `law_*`.
- `tests/` runs the library on concrete values.
- `app/` is the program around it: the command line, the file system, HTTP and
  UDP. It hands the library plain values and does what the library decides.

What the library takes from std and from `urlencoding`, `uuid` and `httpdate`
stands behind small wrappers in `encoding.rs`, `identity.rs`, `ssdp.rs` and
`text.rs`; their contracts are trusted.
