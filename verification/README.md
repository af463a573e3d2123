# stomp_broker

A small STOMP message broker, written in Verus.

- `src/` is the verified library:
  - `proto::stomp`: the frame commands, the parser of frame text, the codec
    that reads frames from and writes replies to `bytes::BytesMut` buffers,
    and the laws of parsing.
  - `listener`: the registrar's decisions: which event a frame makes, and
    which peers a message goes to.
  - `connection`: the request that a client frame makes of the queues.
  - `queue`: a queue and its routing key.
  - `text`, `buffer`: splitting text, comparing text, UTF-8 decoding, and the
    byte-buffer operations the codec relies on.
- `app/` is the program around it: the TCP listener, the socket readers, the
  registrar and dispatcher tasks, the `tokio_util` codec impls, and the
  example clients.
- `tests/` runs the library on concrete frames, buffers and peers.
