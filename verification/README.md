# rs-top

A lightweight, agentless, read-only monitor of remote Linux hosts: it
connects to each configured host over SSH, runs one shell command that prints
memory, cpu, uptime, disk, address, load, network, process and failed-unit
sections, and shows the results in a terminal dashboard.

Layout:

- `src/` — the verified library (Verus): parsing of the gathered output,
  host settings, the dashboard state machine, and the text and layout
  numbers of the panels.
- `tests/` — tests of the library.
- `app/` — the program: configuration file, SSH sessions, the event loop and
  the drawing with ratatui. Floating-point presentation (percentages, rates,
  graph scales, colours) lives here.
