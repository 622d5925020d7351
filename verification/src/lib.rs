//! Exact rank fusion: certified early termination for reciprocal-rank fusion,
//! exact merging of ranked streams and exact nearest-neighbour cursors.

pub mod dense_ball;
pub mod dense_certificate;
pub mod dense_clustering;
pub mod dense_cursor;
pub mod dense_documents;
pub mod dense_evidence;
pub mod dense_laws;
pub mod dense_open;
pub mod dense_plan;
pub mod dense_proposal_certified;
pub mod dense_quantized;
pub mod dense_rank_state;
pub mod dense_ranking;
pub mod dense_scalar_certified;
pub mod dense_threshold;
pub mod exact_composition;
pub mod exact_dense_stream;
pub mod exact_rank_stream;
pub mod exact_ranking;
pub mod exact_score_stream;
pub mod frontier;
pub mod hybrid_exact;
pub mod id_index;
pub mod n_channel_exact;
pub mod n_channel_laws;
pub mod n_channel_rank_sharing;
pub mod n_channel_router;
pub mod n_channel_sources;
pub mod n_channel_streams;
pub mod n_channel_trace;
pub mod native_dense_stream;
pub mod offsets;
pub mod operation_error;
pub mod order;
pub mod per_vector_scalar_index;
pub mod rank_queue;
pub mod rank_stream;
pub mod reciprocal_rank_fusion;
pub mod segment_records;
pub mod segment_search;
pub mod segment_streams;
pub mod segment_view;
pub mod shared_node;
pub mod shared_node_laws;
pub mod sparse_dispatch;
pub mod stream_laws;
pub mod tables;
