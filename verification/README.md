# azurepath

A network toolkit library verified with Verus: subnet arithmetic, DNS and
mDNS wire formats, TLS certificate heuristics, HTTP and ICMP probe parsing,
VNC/RFB messages and a tile-diffing frame encoder, peer discovery state,
file-transfer bookkeeping, and the code generators of the API tester.

- `src/` is the library. Every function there is verified against its
  `requires`/`ensures`; the `law_*` proof functions state properties that span
  several calls (round trips, what an update leaves unchanged, layouts).
  Calls into outside crates (regex, serde_json, chrono, image, des, rand) go
  through small trusted wrappers whose contracts name or describe their results.
- `tests/` exercises the library on concrete values.
- `app/` is a command-line front end: sockets, processes, files, threads and
  clocks, handing plain values to the library and printing what it returns.
