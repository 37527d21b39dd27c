# alts_checker

Finds Minecraft and Discord accounts in what programs leave on a Windows machine,
and explains where each one was seen: logs and JSON files of the game, LevelDB
directories of Discord and of browsers, and the change journals of the drives.

* `src/` is the library, verified with Verus. It reads no file and makes no system
  call: each function states what it makes of the bytes and texts it is given.
* `app/` is the program around it: the window, the walk over directories, and the
  calls into Windows. The modules for Windows need the crates `windows` and
  `winreg` on that system.
* `tests/` run the library on concrete values.
