# mac_cleaner

Finds the largest files and folders under a path and helps to remove them.

There are two programs: `mC` shows a plain numbered list, and `mCp` is an
interactive browser.

| Key | Action in the browser |
|-----|-----------------------|
| `↑` / `↓` | Move the cursor |
| `Space` | Expand or collapse a folder |
| `s` | Select the item under the cursor, or no longer |
| `1,2,…` and `Enter` | Select several items by number |
| `PgUp` / `<` | Previous page |
| `PgDn` / `>` | Next page |
| `Enter` | Action menu (Finder, delete) |
| `q` / `Esc` | Quit |

## Layout

- `src/` is the library, verified with Verus: paths, walks over directories,
  ranking, the state of the browser, what the screen shows, and the dialogue of
  the list. It never touches the disk or the terminal.
- `app/` is the program around it: arguments, directories, the terminal.
- `tests/` runs the library on concrete values.

The walk is driven from outside, one directory listing at a time. `src/tree.rs`
proves what that comes to on a whole tree. The depth option says how many levels
below the root the folders are that get a row of their own, with all the bytes
below them: 1 is the direct children, 2 is one level deeper. Files outside of
these folders are credited to the direct child of the root that they lie in. With
0 there is no limit, and the direct children are credited with all they hold.
