# session_replay

Decides what a client is sent that loads a recorded agent session: which lines of
the session's log, which of the `/btw` asides asked beside it, in what order, and
with which marks on them. The library is written in Verus: its contracts say what
each function returns, and its public proof functions state what holds of a replay
as a whole.

* `src/` is the library. `replay` plans a replay and takes its steps, `driver` runs
  it from event to action, `forward` says what one line or one aside goes out as,
  `btw` selects and orders the asides, `drain` bounds how many notifications wait
  for their acknowledgement; `json`, `text` and `time` hold the values that these
  work on.
* `app/` reads the files of a session, sends the notifications and waits for the
  acknowledgements.
* `tests/` runs the library with the crates that it calls.

What the library takes on trust of `serde_json`, `chrono`, `agent_client_protocol`
and the standard library is stated in the contracts of a few small functions, each
with a comment that names what it calls.

How the storage of sessions reads a log (which lines are live, when one was
recorded, what rewinds discarded, how tool calls are collapsed) is handed to the
library as closures; the contracts hold whatever these return.
