# Disk Doctor

A forensic recovery toolkit: it carves files out of raw disks by their magic
bytes, looks for partition headers, lists disks, recovers git remotes from
what is left on a machine, pages through devices in hex and images disks with
a SHA-256 check.

- `src/` is the library, verified with Verus: the carving decisions, the
  sector scan, the `diskutil list` parser, the git remote scanners and the
  re-clone script, the hex viewer's paging and rows, offset parsing, size and
  duration formatting, and SHA-256 streaming (through `sha2`).
- `app/` is the egui program around it: windows, threads, file and device
  I/O, and the commands it runs (`diskutil`, `find`, `gh`).
- `tests/` runs the library on concrete inputs.
