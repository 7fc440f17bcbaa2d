# rook_terminal

A terminal over the entities of an ECS world: the entities form a virtual file
system (names, listed children, children chosen by component filters, text and
binary files), and a small shell (`ls`, `cd`, `pwd`, `cat`, `clear`, `help`,
`rook`) runs over it.

- `src/` is the library, verified with Verus: the shell commands
  (`command.rs`), the file system over a snapshot of the world
  (`file_system.rs`), ANSI styling and colours (`style_sheet.rs`), text
  helpers (`text.rs`) and the terminal state (`lib.rs`). Every public function
  states its result over spec functions; the laws of paths, sizes, filters,
  escape codes and history navigation are proof functions named `law_*`.
- `app/` is the program around it: the bevy_ecs components and resources,
  the snapshot of a `World`, the command systems and the egui/eframe window.
- `tests/` runs the library on concrete file systems and inputs.
