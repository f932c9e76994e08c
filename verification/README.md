# nova_core

The verified core of the Nova game engine.

- `src/` is the library, verified with Verus: configuration and its
  validation, the memory-size parser (which reads a decimal number as the
  nearest double, in integer arithmetic), the prioritised event queues, the
  resource registry with its memory accounting, the task queue, the plugin
  lifecycle, the framing of the wire protocol, and the client and server
  policies.
- `app/` is the `nova` command line and everything that does I/O, awaits or
  computes with floating point: the async engine, the worker pool, the plugin
  host, the sockets of server and client, and the TOML and Protocol Buffers
  encodings.
- `tests/` exercises the library.
