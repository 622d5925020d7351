# Exact rank fusion

A library for exact search over several ranked channels: reciprocal-rank fusion that
stops as soon as the fused Top-K can no longer change, exact merging of ranked streams,
and lazy nearest-neighbour cursors whose order is certified before it is handed out.
Everything under `src/` is verified with Verus.

## What is proved

* Fusion with certified early termination returns what the exhaustive fusion returns,
  under every scheduling policy, batch size and pause. This needs an arithmetic that adds
  ranks to the sums it produces without lowering them, that keeps the order of those sums,
  and that adds no more for a later rank than for an earlier one.
* A network of fusions that pulls on demand returns what full materialization returns,
  under such an arithmetic. What a fusion puts out comes, output by output, from a run over
  its inputs that ends once the output is fixed. So where a leaf fails, the execution
  returns that failure only if the failing pull was needed, and otherwise identities that
  are first whatever the leaf would have yielded further.
* A search over channels ranks its dense channels as the documents of its index are ranked
  under the exact scores, however identical channels share a stream.
* Dense cursors yield the exact ranking of their points wherever the intervals they
  start from hold the exact scores.
* A dense stream over bounds scores a document only where its bound is not below the score
  of the document that comes next.
* A threshold stream yields the exact ranking of its documents wherever its bounds, which
  the supplied arithmetic sums, stay above every score that is not yet known. An arithmetic
  that rounds up keeps them there; whole numbers are one, and the library orders documents
  by them.
* Merges, replayed streams and tie groups keep the exact order, and the failure of a
  source is returned instead of an end.

## Layout

* `src/reciprocal_rank_fusion/`: fusion state, certificate, session and executor.
* `src/exact_composition/`: acyclic networks of fusions.
* `src/dense_*`, `src/frontier.rs`, `src/exact_ranking.rs`: dense indexes and cursors.
* `src/n_channel_*`, `src/hybrid_exact.rs`, `src/shared_node.rs`: searches over channels.
* `src/segment_*`, `src/sparse_dispatch.rs`: the streams and results of one segment.
* `app/`: floating-point arithmetic and what supplies it, messages of errors, index files.
* `tests/`: scenarios.

## Scores

Scores, weights and costs are 64-bit keys of floating-point numbers, ordered as the
numbers are; vectors are bit patterns. Arithmetic on them is supplied by closures, so
that contracts can say which results lead to which decisions.
