# hilmon

The logic of a dashboard for a lab's GPU servers, written and verified in Verus: utilisation,
memory, power and temperature of every card, once a second, from one ssh stream per server.

`src/` is the library. Every function in it is verified against its contract. `app/` is the
program around it: files, sockets, processes, threads and locks. `tests/` runs the library on
concrete values.

| Module | What it holds |
|---|---|
| `natural`, `double`, `decimal` | binary64 numbers in software: arithmetic, reading and writing, each rounded once |
| `text`, `table` | texts as sequences of characters; tables in the order of their keys |
| `json`, `written` | reading and writing JSON; what is written reads back |
| `model` | configuration, samples, and the snapshot, redacted where it is public |
| `gate`, `run` | the ceiling on ssh connections: a gap between any two, a number in any window; both over a run of connections |
| `block`, `collect` | what a server sends, and what the collector makes of it |
| `power`, `db`, `stats` | the power log, the store of sixteen-byte rows, the statistics |
| `stored` | what the store gives back of what was stored |
| `summary`, `summarizer` | the facts for a written summary, the request and its answer |
| `http` | requests, routes, answers, and what is kept between them |
| `cli` | arguments, reports, and the rounds of publishing |
| `published` | what is published reads as what was published |

Numbers are `Double`, which holds the 64 bits of a binary64 number; a machine number goes in by
its bits and comes out by them. A function that needs the outside takes what the outside said as
an argument and returns what is to be done: the program reads, calls, and does it.

What the library takes on trust are five functions of the standard library: `String::push`,
the debug texts of characters and strings, `char::from_u32` and `String::from_utf8_lossy`. Each
stands behind one declaration that says what is claimed of it.
