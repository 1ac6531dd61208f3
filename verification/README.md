# sipx_transport

The transport layer of a SIP stack — RFC 3263 resolution, connection reuse, capture and
redaction, STUN keep-alives, overload control, counters and timers — as a library whose logic
is verified with Verus.

- `src/` is the verified library. Each function states what it returns, or how it changes its
  arguments, in `requires`/`ensures` over spec functions and views, and Verus proves it. The
  few calls into outside crates (`rand`, `rustls-pki-types`, `tokio-tungstenite`) go through
  small trusted wrappers whose doc comments say what is assumed of them.
- `app/` is the ordinary Rust around it: the DNS client (`hickory-resolver`) that answers the
  questions the library's resolution asks, the capture file writer, the WebSocket connect, and
  the floating-point overload algorithms.
- `tests/` runs the library on concrete values.

Decisions that alternate with waiting are state machines in `src/` that `app/` drives: for
example, `resolution::Resolution` says which DNS question to ask next, under the policy's
deadlines and limits, and `app/dns.rs` asks it.
