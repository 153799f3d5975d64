# md2core

Converts a Linux or Android Breakpad minidump into an ELF core file that
debuggers can open.

- `src/` is the library, written in Verus: reading the minidump's streams
  (through the `minidump` crate), `/proc/<pid>/maps` parsing, the crashed
  process model, mapping augmentation (stacks, the rebuilt `r_debug` link
  map, the patched `DT_DEBUG`), the register notes and the ELF core image.
  Each public function states its result in its contract, and the laws of
  the format (header sizes, note alignment, the image layout, what the
  augmentation keeps) are proof functions beside the code.
- `app/` is the command-line program: argument handling, reading the file,
  verbose reporting and writing the image.
- `tests/` runs the library on concrete inputs.
