# nova_agent

An agent that holds Minecraft server processes and serves clients over a local socket
with a JSON Lines protocol.

- `src/` is the verified library (Verus): the console backlog and its broadcast channel
  (`console`), the instance life cycle and the registry of instances (`instance`), the
  error texts (`error`), the protocol types and the request handling (`ipc`), the agent's
  state (`state`) and text helpers (`text`).
- `app/` is the program around it: logging, the local socket server, JSON encoding, and
  the processes themselves (spawning, reading their output, writing to them, waiting for
  them, killing them). It performs the work that the library's decisions ask for.
- `tests/` runs the library on concrete values.
