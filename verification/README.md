# orion_chat

A small TCP chat server and its clients, with the logic verified in Verus.

- `src/commands.rs`: the command line's types and the port check.
- `src/wire.rs`: received bytes: the line ending, UTF-8 decoding.
- `src/groups.rs`: chat groups, the book of groups, the client lists that
  copies of a group share, and what the group server does with each request
  line of a client.
- `src/orion.rs`: the standalone room server: who is in the room, who a
  message goes to, what a connection passes on after each read.
- `src/terminal.rs`: the terminal client's read timer and scrolling.
- `src/keys.rs`: distinct keys in a sequence.
- `src/text.rs`: contracts of the few `std` string operations used.
- `app/`: the programs: sockets, threads, the terminal window and clap.
