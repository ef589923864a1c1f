# holo_spb

Shortest Path Bridging (IEEE 802.1aq, RFC 6329) computation for IS-IS, written
in Verus: every public function of the library states what it returns, and its
body is proved to.

## Layout

| Module | What it holds |
| --- | --- |
| `ordmap`, `order`, `text`, `bytes`, `diff` | ordered maps and sets, sorted sequences and their order, hexadecimal text, network byte order, differences of tables |
| `node`, `mac` | System IDs and MAC addresses |
| `ect` | ECT algorithms, BridgeIDs, PATHIDs and path ranks |
| `topology` | the topology view and the questions asked of it |
| `region`, `spt` | paths through a region, which of them is best, and the proof that the chosen paths are shortest, unique and symmetric |
| `tree` | shortest path trees and tree sets |
| `mcast` | group addresses |
| `fdb` | forwarding tables and their changes |
| `digest` | the agreement digest and the agreement with neighbours |
| `wire`, `stlv` | Sub-TLVs |
| `isis` | from configuration and LSDB to forwarding state |
| `dataplane` | messages to the dataplane and the session with it |
| `northbound`, `southbound` | log lines, the BFD node in the data model, requests to the interface manager |

`app/` is ordinary Rust around the library: the gRPC client, logging, the
message bus and the serialized forms.

## What is proved

A tree is described by the path it takes to each node (`spt::chosen_paths`).
Each such path is a best one: none is cheaper, none as cheap has fewer hops, and
none alike in both has a lower PATHID. The best path is unique, the same from
either end, and independent of who computes it. Hop counts stop at 65535;
beyond that, paths are told apart by cost alone, and what is said of uniqueness
and symmetry of paths holds up to that limit. Cost and hop counts are symmetric
without it.

Forwarding tables are a function of the view and its trees. Applying the change
between two states to the first gives the second, and applying a snapshot to
anything gives the state it was taken of.

What is digested is determined by the shape of the topology. It determines the
shape in turn, as long as the counts fit the fields they are written to: up to
2^32 - 1 nodes and links, and 2^16 - 1 tree sets per node.

Every session with the dataplane begins with a snapshot. The multicast state of
a tree whose distance has changed is withheld until every neighbour agrees with
the current view, over as many computations as that takes; unicast never is.

One item is taken on trust: the HMAC-SHA256 of the `hmac` and `sha2` crates,
whose result is named but not described. The `ipnetwork::IpNetwork` type is
carried through unread.
