# sms_tg

Line buffers for reading newline-terminated lines from a serial port, verified
with Verus.

- `src/linebuf.rs`: `RingBuffer`, a byte ring over borrowed memory whose reader
  may lag behind its writer (and be overrun), with line reading on top; and
  `LineIterator`, which yields the line ranges of a plain buffer. Each type has an
  abstract view (`RingBufferView`, `LineIteratorView`) over which the contracts
  and the public lemmas are stated.
- `src/arith.rs`: facts about positions that wrap around the end of the memory.
- `tests/`: executable tests.
- `app/`: the ESP32 firmware that reads UART1 into a `RingBuffer` and logs each
  line; it needs the Espressif toolchain and target to build.
