# keifu

The parts of a terminal git graph viewer that decide: which terminal events
reach the interface, how they are batched, and how branches and tags are listed.
Each function states in its contract what it decides, and Verus proves it.

- `src/terminal.rs`: the events of a terminal.
- `src/scroll.rs`: one scroll event for each notch of the wheel.
- `src/event.rs`: the queue between the reader thread and the interface, and the
  batches that a poll hands out.
- `src/laws.rs`: what holds of every stream of events.
- `src/session.rs`: what holds of the reader, the queue and the polls together.
- `src/git/branch.rs`: the lists of branches and tags.
- `src/git/laws.rs`: what holds of every list.
- `src/order.rs`, `src/sort.rs`: the order of names and a stable sort.
- `app/`: the reader thread and the reads from the repository.
