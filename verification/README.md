# lxr

The reference-counting core of a region-based garbage collector, written in Verus:
a field-logging write barrier that coalesces writes, packets of increments that
promote and evacuate young objects, packets of deferred decrements that free dead
ones, and the diagnostics that look for missed counts.

## How it is modelled

`plan::Lxr` holds what the collector reads and writes as plain values: memory, unlog
bits, counts, marks, forwarding, the spaces, and what it hands to the scheduler and
to the spaces. Its view is `state::State`. Each operation is specified as a function
from one `State` to the next, and its contract says that it computes just that
function.

What only the world outside can tell comes in as a value: the answers of the copy
allocator, what another worker that has claimed an object will publish, how long the
pause has lasted, and the text of environment variables. What goes out is a list: the
work for the scheduler, the requests to the spaces, and the lines of the log.

## Where things are

- `src/barrier.rs`: the write barrier.
- `src/increments.rs`, `src/incs.rs`, `src/evacuate.rs`, `src/inc_work.rs`,
  `src/roots.rs`: increments. `src/progress.rs` says why they come to an end.
- `src/decrements.rs`, `src/decs.rs`: decrements. `src/release.rs` says why they come
  to an end.
- `src/trace.rs`, `src/referrers.rs`, `src/parse.rs`, `src/text.rs`,
  `src/stats.rs`: diagnostics and statistics.
- `src/state.rs`, `src/plan.rs`, `src/args.rs`, `src/object.rs`, `src/packets.rs`,
  `src/queue.rs`, `src/table.rs`, `src/logging.rs`, `src/validity.rs`: what these are
  made of, and how it is checked.
- `src/laws/`: what holds of the whole, as proof functions.
- `app/`: environment variables, the clock, the flag that workers share, and the
  printed log.
- `tests/`: tests on concrete heaps.
