# jade_client

A verified core for talking to a Blockstream Jade hardware wallet. Jade speaks a
JSON-RPC shaped protocol encoded as CBOR, over a serial line or Bluetooth.

`src/` is the library, written in Verus. It holds no link, no clock and no
network: each step takes what happened and says what to do next.

| Module | What it decides |
|---|---|
| `frame` | where a CBOR data item ends in a stream of bytes |
| `cbor` | what an item holds, and its encoding |
| `protocol` | frames, request ids, requests |
| `members`, `reply` | what a reply says and whose it is |
| `transport` | one request in flight: replies, deadlines, cancelling, giving up |
| `reassembly` | replies that come in fragments |
| `types`, `path`, `serial` | names, versions, derivation paths, device nodes |
| `json`, `pinserver` | unlocking with the help of the pinserver |
| `psbt` | checks before and after a transaction is signed |

`app/` runs those steps with tokio, `JadeTransport` implementations and an HTTP
stack. `tests/` drives them with a scripted device and a clock of its own.

What is taken on trust is stated where it stands: reading and writing CBOR with
ciborium (`cbor`), JSON with serde_json (`json`), and derivation paths and
transactions with rust-bitcoin (`path`, `psbt`).
