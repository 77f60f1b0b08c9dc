# ircbot

A small IRC bot. The library (`src/`) holds everything the bot decides, each
function with a contract that Verus proves:

- `irc_lib`: parsing a line into prefix, command and parameters, rendering a
  message back into a line, and the RFC 2812 rule for channel names;
- `utils::functions`: addressing replies, and the steps of a session
  (registration, line endings, the join after the message of the day);
- `modules`: the bot's commands (`PING`, `!id`, `!rand`, `!fortune`) and a
  Markov-chain text model;
- `wire`: laws relating parsing and rendering;
- `text`: the string operations (split, replace, find, decimal digits) used
  above, specified over character sequences;
- `ext`: the trusted declarations of the standard-library and `rand` calls.

`app/main.rs` is the program: the TCP connection, the read/write loop, and
running the `fortune` program.
