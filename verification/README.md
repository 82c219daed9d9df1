# rumor

`rumor` runs a JSON-configured set of processes side by side, each on a terminal
of its own, and shows them in tabs or prints their output line by line.

Everything that the program decides is a Verus library under `src/`: which
configurations are accepted, when a process may start, when it is started again,
what each key does, what is found by a search, and what the screen says. The
contracts are stated over plain values, and the functions whose names begin with
`law_` state what holds across several functions.

| Modules | Subject |
| --- | --- |
| `text`, `template`, `env`, `pattern` | texts, `${VAR}` substitution, environments, regular expressions |
| `config`, `config_error`, `graph`, `ports` | configurations, dependency cycles, dynamic ports |
| `status`, `retry`, `diag`, `watch`, `probe`, `manager` | the life of a process: readiness, restarts, shutdown |
| `vt`, `terminal`, `output`, `logfile`, `raw` | what processes write, as a screen, a log file or lines |
| `search`, `highlight`, `style`, `status_color`, `tabs`, `ui`, `app` | the screen and the keys |
| `cli`, `clipboard`, `update` | the command line, the clipboard, newer versions |

`app/` is the program around the library: files, terminals, signals and drawing.
`tests/` runs the library.

What the library takes from other crates stands behind functions marked
`external_body` and `assume_specification`; the comment above each names the
outside function and says what is relied upon.
