# abo_builder

Converts x86_64 ELF64 executables into ABO bundles (header, manifest, segment table,
segment data) and reads bundles back. The library in `src/` is verified with Verus:

- `bytes`: little-endian reading and writing, and the law that a read gives back a write.
- `elf`: the ELF64 header and program-header reader.
- `manifest`: the `KEY=VALUE` manifest, its reader and writer, and the law that reading a
  written manifest gives it back.
- `abo`: building a bundle, and reading its header, manifest and segment table.
- `readback`: the laws that reading a built bundle gives back what was put in.
- `uuid`: the name-derived bundle id and its textual form.
- `cli`: selecting the command and reading the build command's options.

`app/main.rs` is the `abo-builder` program: file I/O and printing around the library.
