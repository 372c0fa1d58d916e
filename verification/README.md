# fdu

A fast disk usage analyzer with a streaming terminal interface, whose logic is verified with
[Verus](https://github.com/verus-lang/verus).

`src/` is the verified library:

| Module | What it holds |
|--------|---------------|
| `text` | strings as sequences of characters |
| `glob` | name patterns for entries to exclude |
| `sizes`, `double` | sizes such as `1.5GB`, read to the exact bytes that doubles give |
| `ranking` | lists of the largest entries |
| `paths` | paths as they are shown |
| `dirs` | the directories of a scan, with their sizes and their largest files |
| `state` | what a scan has found, and what a deletion takes out of it |
| `scanner` | the steps of a scan and what holds of it as a whole, the directory listings of each platform, and a walk in batches |
| `app` | the state of the interface, and what the keys do |
| `view` | what the interface shows, and where |
| `report` | what is printed |

`app/` is the program around it: the command line, the file system, the threads and the terminal.
A scan reads directories in parallel and hands each listing to `scanner::scan`, which takes it in
and returns the directories to read next.

The library calls `humansize` to write sizes and `ratatui` to divide the screen, and a few
functions of the standard library that Verus does not know. Each of these stands behind a
declaration that says what is relied on.
