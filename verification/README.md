# pbft_node

The core of a practical Byzantine fault tolerant (PBFT) consensus node: what a node does with the
messages of its peers and with the blocks of its validator, and how it proves to others what the network
agreed on.

The library in `src/` is written in Verus. Every function states what it returns and what it changes, and
Verus proves that it does, except for the few functions that call other crates (see below).

## How the node works

`node::PbftNode` handles one update at a time: a message from a peer, a new block, a block that was
committed, a tick of the clock. It does no input or output. It writes its requests to the validator into
`node.service.requests`, and reads the answers to those whose outcome it depends on from
`node.service.replies`. Where an answer is missing it stops with `Halt::AwaitingReply`; whoever drives it
carries out the requests, adds the answer, and lets it handle the same update again, from the node and the
state as they were before. The time is whatever `state.now` says.

## Layout

- `model`: what the node does, as functions of its log, its state and its exchange with the validator. The
  contracts of `node` are stated in these terms.
- `node`: the node itself. `state`, `timing`, `message_log`, `service`: its parts.
- `proto`, `vote`, `header`, `wire`: the messages, and their encoding as protobuf messages. `message`: a
  message with what its sender signed.
- `ballot`, `quorum`: judging votes and voters, and finding enough of them.
- `hash`, `hex_text`, `config`, `byte_string`, `block`, `message_type`, `error`: the rest.
- `laws`, `commit_laws`, `view_laws`, `seal_laws`, `replay`: what holds of the node as a whole. `frame`:
  what these rest on.

The functions marked `#[verifier::external_body]` call other crates; what is taken for granted of those
calls is stated in their contracts.

`app/` connects the node to a Sawtooth validator.
