# process_manager

The core of `pm`, a command-line process manager (list, sort and filter
processes, show them as a parent/child tree, report on kill requests, format
sizes and start times), written in Verus with its behaviour stated in
contracts and proved.

- `src/process_info.rs`: process snapshots and statuses, size and start-time
  formatting.
- `src/commands/ps.rs`: stable sorting by a chosen field, filtering and
  limiting a process listing.
- `src/commands/tree_mode.rs`: the process tree view and the search below a
  process.
- `src/commands/kill_process.rs`: the report of a kill request.
- `src/text.rs`: decimal notation, text order and the few string operations
  taken from the standard library.
- `app/`: the `pm` program itself: command-line parsing, reading processes
  from the system, printing tables and lines.
