# rapport

A UDP port-forwarding proxy. The library (`src/`) holds the parts that
decide and compute, each with a contract proved by Verus:

- `text`, `ip`: IPv4/IPv6 addresses, ports and their text forms, with
  read-back laws for the printed forms;
- `dns`: hosts (`HostAddr`) and host sockets (`HostSocket`), how they are read
  from text, and which address a lookup settles on;
- `port_range`, `config`, `config2`, `args`: the configuration and the
  listening routes it describes;
- `route_table`, `router`: input/output route maps kept linked;
- `stream_router`: the per-socket router (a `dashmap::DashMap` behind trusted
  wrappers), with its default target;
- `startup`, `connection`: the decisions of the server loop;
- `pool`: when an idle connection is swept out of its sub-pool, with the
  law over a run of sweeps, and the pool of receive buffers (a
  `lendpool::LendPool` behind trusted wrappers).

`app/` is the program around it: command line, file reading, the tokio
sockets and tasks, DNS lookups through `hickory-resolver`, and logging.
