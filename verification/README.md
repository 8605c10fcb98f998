# fbuilder

Builds firejail profile sections from the trace files of `firejail --trace`:
`private-bin` (programs executed), `private-etc` (entries of `/etc` opened) and the
home-directory whitelist, with the file databases that collect them.

- `src/` — the verified library: trace-line parsing (`trace`, `number`), Unix path
  components (`paths`), string helpers (`text`), file databases (`filedb`), and the
  three section builders (`bin`, `etc`, `home`), plus `utils::extract_directory`.
- `app/` — the C interface: `extern "C"` entry points, trace and whitelist files,
  the process-wide database registry, and writing to `FILE *` streams.
- `tests/` — tests of the library.
