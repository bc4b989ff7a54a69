# ClipTown native desktop

The clipboard history and the proximity transport of ClipTown for macOS, Windows and Linux. The
rules stand in a library that is verified with Verus; a program around it does the input and
output.

- `src/` is the verified library.
  - `model`, `clipboard`, `store`: what is captured, how it is written down, how long it is kept
    and in which order it comes back. `store::laws` states what holds of every history: the limit
    after every capture, pinned clips that survive, equal captures that do not grow the history,
    later captures that are listed first. `store::changes` says what has to be written after an
    operation.
  - `embedding`: the buckets of the network-free hash embedding.
  - `key_store`: when the key of the encrypted history is used, made or refused.
  - `probe`: what a fixture puts into a history, and what is counted of it.
  - `proximity`: advertisements, safety codes, signed envelopes, the replay guard, consent and BLE
    frames. The modules whose names end in `_laws` state what holds over any number of messages.
  - `bluetooth`: which devices are shown, what is read of them and what is sent.
  - `codec`, `crypto`, `json`, `text`, `time`: the calls into other crates, with what is relied on
    of each.
- `tests/` runs the library on concrete values, with the other crates linked.
- `app/` is the program: commands, the SQLCipher database, the credential store, the clipboard, the
  BLE central and the window. Vectors are brought to unit length there, because they are made of
  floating-point numbers.

The history is encrypted with a random 256-bit key in the credential store of the operating
system. Where the key of an existing history is missing or invalid, the program refuses to start;
it never makes a new key for it and never falls back to plain text.

Bluetooth is an untrusted byte transport. Nothing that it delivers is accepted before the
structure, the digest and the signature of the enrolled device are verified.
