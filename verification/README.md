# tty2pty-mux, verified core

A serial console (tty) multiplexer: one serial line is shared by several
pseudo-terminals and telnet clients.

- `src/` is the verified library:
  - `buffer.rs`: the `bytes` buffers (`BytesMut`, `Bytes`) that the codecs
    read and write, with the contract of each operation the codecs use;
  - `scan.rs`: finding the first byte of a frame boundary;
  - `telnet.rs` (and `telnet/commands.rs`): the telnet codec, with laws on
    option codes, read progress, and encode/decode round trips;
  - `pty.rs`: the pseudo-terminal codec, with the law that reading loses
    nothing;
  - `mux.rs`: what each task sends to the serial line or does next, for
    what it observed;
  - `line.rs`: end to end, what reaches the serial line for what a client
    sends (control-C becomes break + `g` on gdb endpoints), as line
    symbols and message by message;
  - `runs.rs`: whole runs of the tasks' decisions: what they write, in what
    order, and when they stop; what a telnet client receives over a run.
- `app/` is the program: argument parsing, the serial port, pseudo-terminals,
  sockets and the async tasks, which call the library for every decision.
- `tests/` runs the library on concrete values.
