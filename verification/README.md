# candle_metal_kernels

Memory, ordering and bookkeeping for running a model on a Metal device. The rules are stated as
contracts and proved; what touches the device is left to `app/`.

| Module | What it decides |
| --- | --- |
| `buffer`, `buffer_pool` | views of allocations; which buffer is reused, when, and which is let go |
| `arena`, `arena_cursor` | where the values of a decode step live in one allocation |
| `admission`, `scratch` | whether a configuration fits in memory, and what to give up if not |
| `encoder` | which barrier stands before a dispatch, which fence before a binding |
| `executor`, `icb` | what happens to a dispatch; which dispatches are replayed from commands encoded ahead |
| `commands` | epochs, fences and last writers of a queue |
| `hazard_audit`, `fence_probe` | whether every dependency is ordered, and which waits order nothing |
| `residency_set` | which allocations are kept resident |
| `profile`, `run_telemetry` | how busy the device was; samples and marks of a run |
| `device`, `text`, `tally`, `sums` | kinds of devices; numbers in words; counts by name; sums |

The modules work on plain values: allocations, fences, pipelines and command buffers are known by
their identities. `app/` owns the Metal objects and carries the decisions out.

Each public function states in its contract what it returns or changes. Functions whose names
begin with `law_` state what holds of several of them together.
