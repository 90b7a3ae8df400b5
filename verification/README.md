# gd

A smarter `cd`: type a name, land in the right directory.

The library under `src/` holds what gd decides, with contracts that Verus proves:

| Module | What it is about |
|---|---|
| `text`, `path`, `order`, `like`, `distance`, `sorted` | characters, paths, orders, patterns, edit distances |
| `table`, `dirs`, `index`, `db` | what is kept of directories, links, boosts and settings, and how it changes |
| `frecency`, `score`, `rank` | what past use and a name are worth, and the order that follows |
| `fuzzy`, `fallback`, `jump` | the searches, from a query to a list of results |
| `picker`, `ui` | the picker's state, and the rows, titles and footers it shows |
| `config`, `i18n` | the settings, and the language |
| `fan`, `scanner`, `daemon` | the kernel's events, scans, and when the daemon does what |
| `setup`, `update`, `report`, `error` | installation, updates, and what is said |

Functions named `law_…` state what holds of several operations together: that a link
ranks first, then what was selected, what was visited and what is only indexed, that a
full scan leaves exactly what it met, that a rename keeps history.

Scores are exact: a tier, and within it whole units of a thirty-thousandth of a point,
and a fraction where one is needed. No count and no match lifts a score out of its tier;
only a boost does, and the floor for what lies below the current directory. Times are handed in, and so is what is on disk.

`app/` holds the programs `gd` and `gd-daemon` (the same program under two names): the
command line, the database, the terminal, the kernel interface and the walks over the
disk. Each operation reads the rows that it touches into the library's tables, runs the
library on them, and writes back the rows that changed. Multiplying a score with a boost
is floating-point arithmetic and stands there too.

`tests/` runs the library on concrete values.
