# crewai_rs

Multi-agent orchestration primitives, verified with Verus: agents, tasks and
crews that run their tasks in dependency order, typed flows of named steps,
and blueprints that describe a crew as plain data.

The library decides and the caller acts. A run of a crew (`KickoffRun`) or of
a flow (`FlowRunner`) is a state machine: each call returns the next action
(ask a model, parse a tool call, call a tool, run a step) and the caller hands
back what came of it. Every transition is stated exactly by a spec function.

Layout:

- `src/` — the verified library.
  - `schedule.rs`, `schedule_laws.rs`: task ordering (Kahn's algorithm with a
    FIFO queue) and what it guarantees when task ids are distinct.
  - `crew.rs`, `kickoff.rs`, `prompts.rs`: crews, their runs, and the prompts
    sent to agents and managers.
  - `flow.rs`: flow graphs and their runs.
  - `agent.rs`, `task.rs`, `tool.rs`, `model.rs`, `blueprint.rs`, `error.rs`,
    `text.rs`: the data types, builders and text handling.
- `tests/` — tests that drive the state machines with scripted models.
- `app/` — the async runtime around the library: the `ChatModel`, `Tool` and
  `FlowStep` traits, the loops that carry out runs, an HTTP chat-completion
  client, and YAML blueprints.
