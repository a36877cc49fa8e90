# udp_forwarder

A UDP packet forwarder: it listens on one port and forwards every packet to
several targets, with one sender thread per target reading from a
pre-allocated broadcast ring.

The library in `src/` is verified with Verus:

- `ring` — the broadcast ring (publish / read by sequence number), the
  sender threads' step decision and the receiver's packet counter;
- `address` — validation of `host:port` targets (hostnames, dotted-decimal
  IPv4, ports);
- `config` — the configuration file as INI sections: loading, saving, and the
  round trip between them;
- `settings` — the state of the settings window: per-target validation,
  duplicate detection, unsaved-change tracking and status texts;
- `cli` — run mode and configuration path from the command line;
- `text` — decimal numbers, port parsing and string building.

`app/` holds the program around it: sockets, threads, file access, login
items, and the headless and window-state entry points.
