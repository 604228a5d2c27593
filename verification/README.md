# jrg

Intent-aware source search: ripgrep finds candidates, a service judges each of them
against a description of what is sought, and the best come first. The rules of the
search, of the requests and of the ranking are in `src/` and proved with Verus. `app/`
is the command around them: processes, files, HTTP, threads, the JSON form of the
results, and the order in which these are used.

## Layout

| Module | What it holds |
| --- | --- |
| `config` | where the key comes from, and which files never become candidates |
| `search` | the arguments of ripgrep, the texts that it reports, how a search ends |
| `collect` | grouping ripgrep's lines into candidates, one event at a time |
| `jev` | requests: one question on each candidate, divided by number and by bytes |
| `json` | JSON values, as `serde_json` holds, reads and writes them |
| `request` | what must hold before anything is sent, and what a status calls for |
| `reply` | reading an answer |
| `run` | the state that the workers of a run share |
| `ranking` | the order of the results, and the answers of a run put together |
| `session` | the steps of a run, from the search to what is shown |
| `cli` | argument values, selection, statistics and exit codes |
| `render` | results as text for a terminal |
| `laws` | what holds of a run as a whole |
| `text`, `binary64`, `arrangement` | strings, floating-point numbers by their bit patterns, rearranged sequences |

Functions named `law_...` state what holds across calls: that candidates are verbatim
and bounded, that no match is lost, that files with credentials leave no trace, that
requests keep to their limits and are as full as those allow, that every candidate is
ranked once with its own score, that neither the division into requests nor the order
in which answers arrive matters, and that what is shown does nothing to a terminal but
show characters.

Numbers with a fraction are handled by their IEEE 754 bit patterns, and paths by what
`app/` sees of them in the file system.
