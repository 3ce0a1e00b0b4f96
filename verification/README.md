# fleet-conductor

Orchestration of a fleet of agents: a desired state is reconciled against the
fleet by spawning and draining agents, and no drain goes ahead that would leave
the stable region of `gamma` and `eta`. Everything in `src/` is proved against
its contract with Verus.

| Module | What it holds |
|--------|---------------|
| `state` | the agent lifecycle: `Pending -> Starting -> Healthy <-> Degraded -> Draining -> Terminated` |
| `conservation` | the guard: bounds, verdicts, reasons |
| `conductor`, `fleet` | observe, spawn, drain, reconcile, tick; their data |
| `model`, `laws`, `groups` | what the operations mean, and what holds of them: reconciliation is idempotent, reaches the desired counts, and never drains against the guard |
| `http`, `routes`, `json` | reading requests, deciding what they do, writing replies |
| `text` | words, white space, numerals, order of strings |
| `binary64`, `rounding` | 64-bit floating-point numbers as bit patterns, every operation rounded exactly |

`app/` is the HTTP server: sockets, threads, and JSON by serde. `tests/` runs the
library on concrete values, and its arithmetic against the machine's.

```text
GET  /health         liveness
GET  /fleet          the fleet as JSON
POST /reconcile      reconcile toward the FleetSpec in the body
POST /advance        one lifecycle tick
POST /drain/:id      drain an agent, if the guard permits
GET  /agent/:id      an agent's state
```
