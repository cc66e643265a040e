# echolot

Exchanging files over sound waves. The sender plays a file as a sequence of
tones; the receiver listens, answers, and writes the file.

- `src/` is the verified library (Verus): 16-MFSK modulation, the
  Reed-Solomon envelope around compressed packets and its repair search,
  packet framing and checksums, the listening state machine, the sender's
  handshake (wait for an initiation, offer, send on acceptance, listen
  again after a denial), answers and time limits, and sample bookkeeping. Each public function carries a
  contract; the laws that tie functions together are proof functions
  (`lemma_*`).
- `app/` is the command-line program: audio devices (cpal, rodio, rtrb),
  the FFT pitch detector, serialisation of packets (serde, bincode), the
  terminal (indicatif, inquire) and the file system.
- `tests/` runs the library on concrete values.
