# rei_manga

A toolkit for preparing manga scans: it finds and splits double pages, lets
a user place manual split lines, renames pages into a numbered sequence,
uploads volumes, follows remote upscaling jobs and checks the artifacts they
return, and lists the network ports in use on the machine.

The crate is written in Verus. `src/` is the verified library: every
decision that does not need pixels, floating point or the outside world is
stated in `requires`/`ensures` contracts and proved, from the parsing of
`lsof`, `netstat`, `tasklist`, `ps` and `wmic` output to the naming and
ordering of output files, the progress events of a split run, the watch of a
job and the validation report of an artifact.

- `text`, `names` — character-level helpers and file-name rules.
- `ports` — the port table and the process trees attached to it.
- `regions`, `split` — foreground boxes, crops and the bookkeeping of a split run.
- `manual` — manual split planning: output names, crops, previews, overrides.
- `rename`, `volumes` — natural ordering, sequence numbers, volume analysis.
- `upload`, `jobs`, `endpoints`, `artifact` — uploads, job events, service
  addresses, archive names and artifact reports.

`app/` is ordinary Rust around the library: the commands that read and write
files, run programs, talk HTTP and WebSocket, and do the image arithmetic in
floating point. `tests/` exercises the library from outside.
