# oxide_network

The network side of a game server, verified with Verus: what goes over the wire, who is
connected, what the console and the chat may do, and how items move through the world.

## Layout

`src/` is the library. Every function states what it returns or changes, and Verus proves it.

| module | what it holds |
| --- | --- |
| `codec`, `text` | big-endian numbers, length-prefixed strings, text helpers |
| `packets`, `rpc`, `protocol` | handshake packets, generated calls, packet numbers |
| `wire`, `outbound` | frames, keep-alives, discovery; which frame goes to whom, and by which way |
| `registry` | storage under numbers on top of `dashmap`, and under names |
| `listener`, `startup` | admission, UDP registration, what a save restores |
| `runtime`, `commands` | console commands, mode switches, loading and resuming a world, chat commands and votes |
| `conveyor`, `logistics` | belts, routers, bridges and the transport pass |
| `spacing` | how far apart the items of a belt stand, in numbers |
| `production`, `economy` | inventories, factories and drills |
| `content` | tables of blocks, units and recipes |
| `parallel` | an ordered parallel map on top of `rayon` |
| `float_bits` | single-precision numbers by their bits: how they compare and what they stand for |

Functions named `law_*` are proofs about several functions at once: that reading gives back
what was written, that a pass over the map neither loses nor doubles an item, that a frame
takes one way out and a refused registration is not answered, and so on.

The library sends nothing itself. It returns what is to be sent, one order or one step at a
time, and takes the answers of sockets and queues as plain values.

`app/` runs the library: sockets and tasks, the system clock, files, and floating-point sums.

`tests/` runs the library on concrete values.

## What is taken on trust

A few small functions call into other crates or the standard library and are believed without
proof: the CRC-32 of `crc32fast`, base64 of `base64`, the map operations of `dashmap`, random
numbers of `rand`, the parallel iterator of `rayon`, and UTF-8 decoding, lower case and
appending a character of the standard library. Each of them says in its comment what is claimed.
