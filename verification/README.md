# intrusive-listeners

Registries of event listeners that tolerate any use while they are at work, proved in Verus.

Registering a listener returns a guard. Dropping the guard unregisters the listener, without
a search; a guard may outlive its registry, in which case dropping it does nothing. Listeners,
policies and destructors may register, broadcast and cancel at will.

- `src/` is the library. `local` is for a single thread: listeners get the registry itself.
  `locked` holds what a thread does under the lock of a shared registry, and says what is to
  be done without it, in what order. `next` is the wait of a task for the next event.
  `course` says exactly what an operation does and whom it calls, `frames` what follows from
  that, and `laws` and `rounds` what holds whatever happens.
- `app/` puts the library behind guards that clean up by going out of scope: a cell for a
  single thread, a raw lock for several, allocations that outlive their listeners for the
  pointers of guards, and a future for the next event.
- `tests/` runs the library.
