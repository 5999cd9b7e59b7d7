# Shell

The core of an interactive shell, written in Rust and verified with Verus: command
dispatch, history and its recall, directory bookmarks and recent directories, tab
completion, paged lists, syntax highlighting, the state file, and the rules of SSH
sessions.

The library works on plain values. A command line goes in together with what is
known of the outside (the time, whether a path exists, the account), and a
plan comes out: lines to print, a state file to write, and one thing to do next.
The program around it does the reading, spawning and connecting, and hands back
what came of it.

- `src/`: the library. `commands` decides what a line does, `state` and `nav` hold
  the lists and the recall, `input_completion` completes, `save_data` reads and
  writes the state file, `render` and `util` draw, `ssh` holds the rules of remotes.
  What holds of the library as a whole stands in `command_laws`, `completion_laws`,
  `walk_laws`, `path_laws` and `round_trip`, and beside the functions it is about.
- `tests/`: tests of the compiled library.
- `app/`: the command-line program, on rustyline, russh, crossterm and keyring.

Paths are text. Which rules they follow, those of POSIX systems or of Windows, is a
value that the functions take.
