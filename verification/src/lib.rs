//! Replays a recorded agent session to a client that loads it.
//!
//! A session leaves two files behind: the log of updates that were sent while
//! it ran, and the history of `/btw` asides that were asked beside it. The
//! functions of this crate decide what a loading client is sent from these two
//! files, in what order and with which marks. Reading the files, sending the
//! notifications and waiting for their acknowledgement is left to the caller.
//!
//! * [`text`]: the lines of a file, and what is left of one without white space;
//! * [`time`]: the instant at which an aside was asked;
//! * [`json`]: JSON values, read from text and written back;
//! * [`btw`]: which asides are replayed, and when one is due;
//! * [`drain`]: the bounded window of unacknowledged notifications;
//! * [`forward`]: what one recorded line, or one aside, is forwarded as;
//! * [`replay`]: the plan of a replay and its steps, and the replay of a log's
//!   tail;
//! * [`driver`]: a replay under way: what to send, and what to wait for.

pub mod btw;
pub mod drain;
pub mod driver;
pub mod forward;
pub mod json;
pub mod replay;
pub mod text;
pub mod time;
