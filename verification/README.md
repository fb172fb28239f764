# can-tcp-gateway

A CAN-to-TCP gateway that speaks the Yacht Devices RAW text protocol:

```
hh:mm:ss.sss R 19F51323 01 02 03 04     <- received from CAN
hh:mm:ss.sss T 19F51323 01 02 03 04     <- transmitted by a TCP client
```

`src/` is the verified library (Verus):

- `text.rs` — UTF-8 output, Unicode whitespace, splitting a line into words;
- `number.rs` — reading unsigned numbers in a radix, writing fixed-width hex;
- `raw.rs` — the RAW line format: encoding, parsing, and the round-trip laws;
- `frame.rs` — building the extended-ID CAN frames that clients transmit;
- `gateway.rs` — settings, client identifiers, broadcast delivery, what
  becomes of a line a client sends, and the step function that orders a
  connection's hand-overs (CAN writer, echo, broadcast).

`app/main.rs` is the process around it: SocketCAN threads, the tokio TCP
server and per-client tasks, environment variables and logging.
