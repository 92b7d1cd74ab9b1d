# singularity_net

A verified library for HTTP and HTTPS messages, the envelopes they travel in, and the protocol decisions around
them. Everything under `src/` is written in Verus: what a function returns is stated in its contract and proved.

## Layout

- `src/text.rs`, `bytes.rs`, `decimal.rs`, `table.rs`, `order.rs`: text, octets, numbers, tables keyed by text, ranking.
- `src/crypto/`: SHA-256, HMAC and base64.
- `src/net/`: sealed blobs, tickets and frames; socket addresses; the framing of TCP and UDP.
- `src/net/http/`: requests, responses, trailers, content negotiation, the server, HTTP/3 streams.
- `src/net/https/`: the client and server of HTTPS, the parts of TLS, trust stores, revocation, certificate transparency.
- `app/`: ordinary Rust that reads and writes sockets and files and calls the library.
- `tests/`: tests of the compiled library.

## What is outside

The library does no input or output. The results of codecs, of public-key cryptography, of certificate parsing, of
header compression, of random numbers and of the clock are arguments of its functions: a contract says what follows
for every value of them. The functions named `law_*` state what holds between several functions, such as that a
server reads what a client wrote.

Four functions of the standard library are trusted with stated contracts, all in `src/text.rs`.
