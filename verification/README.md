# orbit-transfer

Hybrid P2P and edge-relay file transfer with rateless fountain codes
(LT + LDPC + HDPC), with its logic verified in Verus.

A payload is cut into K source blocks, S LDPC and H HDPC check blocks are added,
and an unbounded stream of symbols is drawn from these inputs. The receiver
needs enough symbols, any of them, in any order; it says READY when it has
decoded the payload and the checksum is right.

## Layout

`src/` is the verified library.

| Modules | Role |
|---------|------|
| `simd`, `blocks`, `endian`, `buffers`, `checksum`, `stream` | Byte strings, XOR sums, numbers on the wire, pseudo-random draws |
| `precode`, `soliton`, `encoder` | Check blocks, degree and neighbor sampling, symbols |
| `peel`, `decoder` | The peeling process, and the decoder that carries it out |
| `progress`, `recovery` | What a decoder gains with each symbol, and what it recovers from an encoder's symbols |
| `wire`, `framing` | Messages, frames, datagrams and byte streams |
| `crypto` | Sealed symbols |
| `relay` | Rooms, routing, and what happens on a relay's connections |
| `scheduler`, `sender`, `receiver` | Paths and the two sides of a session |
| `transfer` | What a transfer delivers |
| `address`, `bindings` | P2P addresses; plain-value interface |

`app/` holds what surrounds it: the command line, sockets, timers, rates, and
the Robust Soliton distribution, which is floating-point arithmetic and reaches
the library as a table of integers, one per degree.

## What is proved

Each function states what it returns for every input. On top of that, among
others:

- a decoder that is complete gives back the payload, whichever symbols of the
  encoder it was fed, in whatever order and however often;
- what is resolved is exactly what peeling leads to, the source symbols alone
  suffice, an LDPC check stands in for a lost one, and fewer than K symbols
  never do;
- no symbol takes progress away, whatever it carries;
- decoding a frame inverts encoding it, for any cut of a stream into chunks;
- no two symbols of any sessions share a nonce, and a sealed symbol opens;
- a relay hands a late receiver everything in order, forwards nothing after
  READY, and keeps sessions apart;
- the relay/direct ratio is kept in every run of symbols, and relays share the
  load evenly;
- a transfer delivers the sender's payload over any mix of links.

## What is relied on

Calls into `rand`, `rand_chacha`, `xxhash-rust`, `argon2`, `chacha20poly1305`,
`bytes` and `String::from_utf8` stand behind small functions whose contracts are
taken as given; their doc comments say what they claim.
