# revset

Streams of commit ancestors, verified with Verus.

`DifferenceOfUnionsOfAncestorsNodeStream` is the stream of the nodes of a commit graph that are
ancestors of some nodes and not of others: `(::A) - (::B)`. The stream is a state machine. It tells
what has to be fetched from the repository and takes the outcome, so that it can be driven by any
kind of I/O.

- `src/ancestorscombinators.rs`, `src/node_stream.rs`: the stream
- `src/pending.rs`: finding the parents of a node
- `src/node_frontier.rs`, `src/unique_heap.rs`: the collections of the stream
- `src/stream_view.rs`, `src/graph.rs`: the mathematical models of the stream and of the commits
- `src/walk.rs`, `src/progress.rs`: the invariant and the measure of the stream's walk
- `src/runs.rs`: what can happen to a stream
- `src/laws.rs`: the laws, above all that a stream that has ended has given out the difference of the
  two sets of ancestors, each node once
- `src/exclusion.rs`: the laws of telling which nodes are excluded
- `src/descent.rs`: the laws of going down the generations
- `src/asking.rs`: the laws of what is asked for
- `src/schedule.rs`: the law that it does not matter when answers become known
- `app/`: an asynchronous driver over a repository
