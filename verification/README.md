# lib

The computing core of four small BSD tools, written in Verus and proved
against its contracts:

- `src/number.rs` — spelling decimal numbers in English words (`number`).
- `src/pom.rs` — the calendar arithmetic behind the phase of the moon (`pom`).
- `src/which.rs` — the candidate paths for a command and the search along
  them (`which`).
- `src/locate.rs` — the bigram front-compression of a sorted path list
  (`locate.code`).
- `src/parse.rs`, `src/text.rs` — reading decimal integers, splitting fields
  and searching bytes.

`app/` holds the command-line front ends: argument handling, reading and
writing, the system calls of `which`, and the floating-point astronomy of
`pom`. `tests/` runs the library on concrete values.
