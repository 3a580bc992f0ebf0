# zh — zed helpers, verified

A stdin → transform → stdout text filter for CSS values and markdown
(`px` → `rem`, hex → `oklch`, timestamp refresh, markdown link escaping, line
sorting), with its logic proved by Verus.

- `src/` is the library, verified by Verus. It works on bytes: every text is a
  `&[u8]` / `Vec<u8>`, viewed as a `Seq<u8>` in the contracts.
  - `text` — byte-level helpers: spans, joining, line splitting, trimming.
  - `patterns` — the regular expressions, run by the `regex` crate behind
    trusted wrappers whose results are named.
  - `css`, `values` — the value engine: replace the values of a line and echo
    the originals in a comment; `px` and `hex` use it.
  - `number` — tidying a printed decimal number.
  - `now`, `mdlink`, `sort` — the other helpers.
  - `links` — keeping markdown link targets away from the helpers that do
    not own them.
  - `helpers`, `apply` — the helper table, argument selection, and running
    the chosen helpers in turn.
- `app/main.rs` is the program around it: arguments, stdin/stdout, the
  environment, the `date` command, and the floating-point color and length
  math, handed to the library as closures.
- `tests/` runs the library on concrete inputs.

Laws proved in `src/` include: values already inside a comment are never
converted again; values are converted line by line, so converting `a + b`
(with `a` ending in a newline) is converting `a`, then `b`; running a list
of helpers is running its parts one after another (and, with deterministic
conversions, each has exactly one result); sorting twice is sorting once
(outside a stray `\r` case), sorting keeps the lines and the number of
newlines; running `mdlink` twice is running it once; and a bare `zh` runs
every helper but `sort`.
