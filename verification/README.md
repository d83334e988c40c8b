# amr_coordination

Decentralized coordination and collision avoidance for a fleet of autonomous
mobile robots on a warehouse grid, written in Verus: every function of the
library carries a contract that Verus proves, except a few trusted wrappers
(marked `external_body`) around the clock (`std::time::Instant`) and the
Reed-Solomon codec of `reed-solomon-erasure`, whose contracts are believed as
stated.

## Layout

- `src/` — the verified library
  - `space_time`: cells, ticks, headings, safe intervals, Q8.8 / Q16.16 fixed
    point, the priority function and the per-cell reservation table
  - `planner`: the grid graph, heading and rotation costs, the bitset
    reservation table, D-SIPP search and trajectory segments
  - `fsm`: agent states, pull-over cells and one tick of the control loop
  - `network`: wire payloads, Lamport clocks and two-phase trajectory locking,
    the one-round task auction, the transport's duplicate filter and rate
    limiter, Reed-Solomon protected payloads
  - `hal`: fixed-point PID and cascaded controllers
  - `sensor`: pose quantization and the localization mode
  - `tasks`: task-announcement bursts and blocked-edge piggybacking
  - `telemetry`: status snapshots, their pacing and the fleet view
- `app/` — the agent binary: the runtime loop, sockets, `io_uring`, GPIO, and
  the floating-point kinematics, braking, motor and sensor code
- `tests/` — tests run against the compiled library

Laws that span several functions are public proof functions named `lemma_*`
next to the code they speak of.
