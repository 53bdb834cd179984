# nocrw

The host's side of the protocol that FPGAs speak over UDP: packets of a network-on-chip (NoC) that
write to a module, read from it, send it messages, and reset it.

- `src/` is the verified protocol library. It does no I/O: where the protocol needs the network, a
  method hands out the datagram to send, or takes the one that was received.
  - `packet`: the packet format; `decode`: what a received packet means
  - `communicator`: the state of the host; `transmit`: packing packets into datagrams
  - `write`, `receive`, `read`, `self_test`: the operations
  - `laws`, `read_laws`: what holds of the operations together
  - `read_runs`, `read_requests`: what holds of a whole read, from its start to its end
- `app/` connects the library to a UDP socket.
- `tests/` runs the library on concrete packets.
