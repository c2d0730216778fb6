# file2qr

Splits any file (or typed text) into text fragments that each fit one QR
code, and restores the file from the fragments read back, in any order.

A fragment line is `<hash>:<index>:<chunk>`: eight hex digits of the SHA-256
of the payload text, a three-digit index counted from 1, and a piece of
`<count>:<name>:<flag>:<base64>`, where the name is percent-encoded and the
flag is `xv` when the data was xz-compressed.

## Layout

- `src/` is the verified library (Verus):
  - `codec.rs`: Base64, percent-encoding, SHA-256 and hex, each behind a
    trusted call into its crate;
  - `encode/`: building the fragment lines, and drawing a QR code;
  - `decode/`: parsing fragment lines, collecting them by hash, rebuilding
    the data; `decode/scan.rs` proves that the scan order does not matter;
  - `roundtrip.rs`: what reading back gives of what encoding wrote;
  - `ui/`: the state of the QR viewer and of the two panels, as reactions to
    messages that return the work left to the caller;
  - `app.rs`: the two tabs and the routing of messages.
- `app/` is the window (iced): it draws the state and does the file,
  dialog and drawing work that the library asks for.
- `tests/` runs the library.

## Collections

The entries read back are kept in a `Vec` ordered by first appearance
(`EntryMap`), and the selected hashes in a `Vec` without repeats
(`HashSelection`), each with its invariant stated. The specifications that
Verus gives `HashMap` and `HashSet` model their keys only for types whose
hashing and equality it knows (integers, `bool`, boxes of these; see
`obeys_key_model` in vstd): with `String` keys no `get` or `insert` result
can be proved without an assumption, so a hash map keyed by the hash text
was not used. The fragments of one entry, keyed by their index, do sit in a
`HashMap<usize, String>`.
