# rustysd

A service manager in the style of systemd for a subset of its configuration: unit files,
dependency ordering, socket activation, and killing the services that depend on a failed one.

- `src/` is the library, verified with Verus: reading unit files, filling in the dependency
  relations, the decisions taken when services start, exit, are killed or shut down, the
  descriptor store, socket activation, the configuration, cgroup file writes, and the
  JSON-RPC control interface. Every public function states what it returns in its contract.
- `tests/` exercises the library on concrete values.
- `app/` is the program around it: it reads files and the environment, opens sockets, forks
  and runs services, handles signals and serves the control socket.
