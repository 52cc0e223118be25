# aurora

The core of the Aurora launcher for Neverness to Everness: the rules,
parsers and state machines behind its mod manager, updater, add-on and Lua
script managers, screenshot gallery and GameBanana browser, each written
with its specification and proof.

- `src/` is the library. Each module states what its functions return over
  sequences, sets and maps, and holds the laws that relate them (round trips
  of `mods.txt` and of mod switches, what reading the debug console flag
  gives after writing it, one download per thumbnail or icon, the gallery's
  order, and more).
- `tests/` runs the library on concrete values.
- `app/` is a small command line around the library: it reads folders and
  files, hands their contents to the library and prints what comes back.
  The launcher's window is not part of this project.
