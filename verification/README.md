# vproc

User-space virtual processes: many processes share one process of the operating
system. Each has its own number, descriptor table, working directory, pending
signals and exit code, and runs as a coroutine.

- `src/` is the library. It holds the decisions and the bookkeeping, with
  contracts that Verus proves: the scheduler (`executor`, `coroutine`, `run`),
  descriptor tables and virtual pipes (`vfd`, `tables`, `pipe`, `ends`), the ELF
  parser and load plans (`elf`, `loader`), starting programs and their cache
  (`vexec`, `hooks`, `cache`), what each intercepted C library function does
  (`preload`, `path`, `poll`), and sessions (`ffi`).
- `app/` performs what the library decides: context switches, memory mappings,
  the dynamic linker, driver threads and system calls. It exports the symbols
  that C code links against, and needs minicoro to be linked in.
- `tests/` runs the library on concrete values.

Functions whose names start with `law_` state what holds of the library as a
whole: that no process is lost by scheduling, that an exit code can be asked for
exactly when its process has ended, that bytes leave a pipe in the order in which
they came, that a stream ends with its last writer or with the cleanup of a
process that held it, that a kernel descriptor is closed once, and the like.
