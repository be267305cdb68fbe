# timer

A hashed wheel timer and three small linked structures, written in Verus with their
contracts proved.

- `src/HashedWheelTimer.rs`: timeouts, wheel slots, the worker that turns the wheel
  one slot per tick, and the timer front end. The worker keeps as its invariant that
  every timeout in the wheel comes due at the tick its deadline falls in (a late one
  at the current tick); each turn hands back exactly the timeouts due at that tick,
  never one before its due tick.
- `src/wheel_math.rs`: powers of two, masking as a remainder, and the due-tick
  arithmetic of the wheel.
- `src/list/`: a stack of `i32`, a singly linked list with by-value, by-reference and
  by-mutable-reference iterators, and a doubly linked list with sentinels kept in
  vector slots.
- `app/main.rs`: the threads, the sleeping, the clock and the printing around the
  library: it shares the timer behind a mutex, runs the worker loop and the tasks.
- `tests/`: unit tests of the library.
