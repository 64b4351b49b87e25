# isayes

A PTY wrapper that answers permission dialogs, as a verified library and a thin
program around it.

Every byte the child writes goes straight to the terminal, untouched. In parallel
the wrapper scores a rolling copy of that output against the shape of a
permission dialog. When the score crosses the threshold it sends a return, or
`yes` and a return, after a countdown that a key cancels, adjusts or switches
off.

```
isayes                          # answers at once
isayes --delay 3                # 3 s to look at it and hit a key
isayes -- 'refactor this'       # arguments for the child
```

The child is the program that the environment variable `ISAYES_PROGRAM` names; it
has to be set.

| Key | Action |
|---|---|
| `Ctrl+A` | Toggle auto-approve |
| `Enter` | Approve now |
| any other key | Cancel this countdown |
| `Ctrl+↑` / `Ctrl+↓` | Delay ± 1 s |

## Layout

- `src/` is the library, in Verus: no I/O, no clock, no threads. Each public
  function states what it returns, and the `law_…` proof functions state what
  holds over whole runs.
- `app/` is the program: the command line, the PTY, raw mode, signals, the log
  file.
- `tests/` runs the library on concrete values.

What is not proved but believed is marked `external_body` in `src/`: the calls
into the `regex` crate and one function of the standard library. Each says what
it claims.
