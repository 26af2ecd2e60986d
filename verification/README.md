# tensorpeek

Inspect safetensors, GGUF, npy and npz headers as JSON, without loading any
tensor data.

- `src/` is the library, verified with Verus: the parsers, a JSON reader and
  writer, a bounded DEFLATE decoder, a ZIP reader, the renderers, the
  command-line rules, and writers for all four formats. Every function states
  what it returns; `src/laws/` states what holds across functions, above all
  that what is written is read back.
- `app/` is the command itself: it opens files, hands their header regions to
  the library and prints.
- `tests/` runs the library on concrete files.

Floating-point numbers are held by their IEEE 754 bits, and all arithmetic on
them is integer arithmetic.
