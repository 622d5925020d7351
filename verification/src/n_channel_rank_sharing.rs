//! Channels with the same query share one physical stream.

pub use crate::rank_stream::SharedRankStream;

use crate::operation_error::{OperationError, OperationResult};
use crate::order::ExtendedPointId;
use crate::rank_stream::{
    asks_once, is_active, replay_telemetry, ReplayView, SharedRankStreamTelemetry,
};
use crate::reciprocal_rank_fusion::executor::leads_from_start;
use crate::reciprocal_rank_fusion::types::ExactRrfStream;
use crate::tables::copied;
use vstd::prelude::*;

verus! {

/// A sparse vector: dimensions and single-precision bit patterns.
#[derive(Clone, Debug, PartialEq, Eq)]
pub struct RemappedSparseVector {
    pub indices: Vec<u32>,
    pub values: Vec<u32>,
}

/// The query of a channel.
#[derive(Clone, Debug, PartialEq, Eq)]
pub enum ExactChannelQuery {
    /// A dense vector, as single-precision bit patterns.
    Dense(Vec<u32>),
    Sparse(RemappedSparseVector),
}

/// The bit pattern of the weight 1.
pub const UNIT_WEIGHT_BITS: u32 = 0x3f80_0000;

/// Whether two queries are the same, bit by bit.
pub open spec fn same_query(left: ExactChannelQuery, right: ExactChannelQuery) -> bool {
    match (left, right) {
        (ExactChannelQuery::Dense(left), ExactChannelQuery::Dense(right)) => left@ == right@,
        (ExactChannelQuery::Sparse(left), ExactChannelQuery::Sparse(right)) => left.indices@
            == right.indices@ && left.values@ == right.values@,
        _ => false,
    }
}

/// What a query asks for: whether it is dense, its dimensions where it names them, and its
/// values, bit by bit.
pub open spec fn query_content(query: ExactChannelQuery) -> (bool, Seq<u32>, Seq<u32>) {
    match query {
        ExactChannelQuery::Dense(values) => (true, Seq::empty(), values@),
        ExactChannelQuery::Sparse(vector) => (false, vector.indices@, vector.values@),
    }
}

/// Whether two rows of bits have the same length and the same bits at every place.
pub open spec fn equal_bits(left: Seq<u32>, right: Seq<u32>) -> bool {
    &&& left.len() == right.len()
    &&& forall|i: int| 0 <= i < left.len() ==> #[trigger] left[i] == right[i]
}

/// Two dense queries are the same exactly where all of their coordinates are.
pub proof fn law_dense_queries_are_told_apart(left: Vec<u32>, right: Vec<u32>)
    ensures
        same_query(ExactChannelQuery::Dense(left), ExactChannelQuery::Dense(right))
            <==> left@.len() == right@.len() && forall|i: int|
            0 <= i < left@.len() ==> left@[i] == right@[i],
        query_content(ExactChannelQuery::Dense(left)) == query_content(
            ExactChannelQuery::Dense(right),
        ) <==> left@.len() == right@.len() && forall|i: int|
            0 <= i < left@.len() ==> left@[i] == right@[i],
{
    if left@.len() == right@.len() && forall|i: int|
        0 <= i < left@.len() ==> left@[i] == right@[i] {
        assert(left@ =~= right@);
    }
}

/// Two sparse queries are the same exactly where all of their dimensions and all of their
/// values are.
pub proof fn law_sparse_queries_are_told_apart(
    left: RemappedSparseVector,
    right: RemappedSparseVector,
)
    ensures
        same_query(ExactChannelQuery::Sparse(left), ExactChannelQuery::Sparse(right))
            <==> equal_bits(left.indices@, right.indices@) && equal_bits(
            left.values@,
            right.values@,
        ),
        query_content(ExactChannelQuery::Sparse(left)) == query_content(
            ExactChannelQuery::Sparse(right),
        ) <==> equal_bits(left.indices@, right.indices@) && equal_bits(left.values@, right.values@),
        left.values@.len() == right.values@.len() && (exists|i: int|
            0 <= i < left.values@.len() && left.values@[i] != right.values@[i]) ==> !same_query(
            ExactChannelQuery::Sparse(left),
            ExactChannelQuery::Sparse(right),
        ),
        left.indices@.len() == right.indices@.len() && (exists|i: int|
            0 <= i < left.indices@.len() && left.indices@[i] != right.indices@[i]) ==> !same_query(
            ExactChannelQuery::Sparse(left),
            ExactChannelQuery::Sparse(right),
        ),
{
    if equal_bits(left.indices@, right.indices@) {
        assert(left.indices@ =~= right.indices@);
    }
    if equal_bits(left.values@, right.values@) {
        assert(left.values@ =~= right.values@);
    }
}

/// A dense query and a sparse one are never the same.
pub proof fn law_kinds_of_queries_are_told_apart(dense: Vec<u32>, sparse: RemappedSparseVector)
    ensures
        !same_query(ExactChannelQuery::Dense(dense), ExactChannelQuery::Sparse(sparse)),
        !same_query(ExactChannelQuery::Sparse(sparse), ExactChannelQuery::Dense(dense)),
        query_content(ExactChannelQuery::Dense(dense)) != query_content(
            ExactChannelQuery::Sparse(sparse),
        ),
{
}

/// Channels of one group ask for the same, and weigh the same: whatever is computed from what
/// a channel asks for alone is computed of both alike.
pub proof fn law_group_has_one_query<A>(
    sharing: Sharing,
    groups: Seq<usize>,
    representatives: Seq<usize>,
    computed: spec_fn((bool, Seq<u32>, Seq<u32>)) -> A,
    left: int,
    right: int,
)
    requires
        sharing.is_grouping(groups, representatives),
        0 <= left < groups.len(),
        0 <= right < groups.len(),
        groups[left] == groups[right],
    ensures
        query_content(sharing.queries[left]) == query_content(sharing.queries[right]),
        computed(query_content(sharing.queries[left])) == computed(
            query_content(sharing.queries[right]),
        ),
        weight_of(sharing.weights, left) == weight_of(sharing.weights, right),
        left != right ==> (match sharing.queries[left] {
            ExactChannelQuery::Dense(_) => sharing.dense,
            ExactChannelQuery::Sparse(_) => sharing.sparse,
        }),
{
    let first = representatives[groups[left] as int] as int;
    assert(first == left || sharing.can_use(left, first));
    assert(first == right || sharing.can_use(right, first));
    lemma_same_content(sharing.queries[left], sharing.queries[first]);
    lemma_same_content(sharing.queries[right], sharing.queries[first]);
}

/// Channels that ask for the same and weigh the same are in one group, where such channels
/// may share.
pub proof fn law_equal_channels_are_grouped(
    sharing: Sharing,
    groups: Seq<usize>,
    representatives: Seq<usize>,
    left: int,
    right: int,
)
    requires
        sharing.is_grouping(groups, representatives),
        0 <= left < groups.len(),
        0 <= right < groups.len(),
        query_content(sharing.queries[left]) == query_content(sharing.queries[right]),
        weight_of(sharing.weights, left) == weight_of(sharing.weights, right),
        match sharing.queries[left] {
            ExactChannelQuery::Dense(_) => sharing.dense,
            ExactChannelQuery::Sparse(_) => sharing.sparse,
        },
    ensures
        groups[left] == groups[right],
{
    let a = groups[left] as int;
    let b = groups[right] as int;
    let first = representatives[a] as int;
    let second = representatives[b] as int;
    lemma_same_content(sharing.queries[left], sharing.queries[right]);
    lemma_same_content(sharing.queries[left], sharing.queries[first]);
    lemma_same_content(sharing.queries[right], sharing.queries[second]);
    lemma_same_content(sharing.queries[left], sharing.queries[second]);
    lemma_same_content(sharing.queries[right], sharing.queries[first]);
    assert(first == left || sharing.can_use(left, first));
    assert(second == right || sharing.can_use(right, second));
    if a < b {
        assert(!sharing.can_use(right, representatives[a] as int));
        assert(sharing.can_use(right, first));
    } else if b < a {
        assert(!sharing.can_use(left, representatives[b] as int));
        assert(sharing.can_use(left, second));
    }
}

/// The same queries are those with the same content.
pub proof fn lemma_same_content(left: ExactChannelQuery, right: ExactChannelQuery)
    ensures
        same_query(left, right) <==> query_content(left) == query_content(right),
{
}

/// The weight of a channel is the one given for it; without one it is 1.
pub proof fn law_weight_is_the_given_one(weights: Seq<u32>, source: int)
    ensures
        0 <= source < weights.len() ==> weight_of(Some(weights), source) == weights[source],
        source >= weights.len() ==> weight_of(Some(weights), source) == 0x3f80_0000,
        weight_of(None, source) == 0x3f80_0000,
{
}

/// Whether a query is dense.
pub open spec fn is_dense(query: ExactChannelQuery) -> bool {
    query is Dense
}

/// Whether two rows of bits are the same.
fn same_bits(left: &Vec<u32>, right: &Vec<u32>) -> (same: bool)
    ensures
        same == (left@ == right@),
{
    if left.len() != right.len() {
        return false;
    }
    let mut i: usize = 0;
    while i < left.len()
        invariant
            i <= left@.len(),
            left@.len() == right@.len(),
            forall|k: int| 0 <= k < i ==> left@[k] == right@[k],
        decreases left@.len() - i,
    {
        if left[i] != right[i] {
            return false;
        }
        i += 1;
    }
    assert(left@ =~= right@);
    true
}

/// Whether two queries are the same, bit by bit.
pub fn queries_are_bitwise_identical(left: &ExactChannelQuery, right: &ExactChannelQuery) -> (same:
    bool)
    ensures
        same == same_query(*left, *right),
        same == (query_content(*left) == query_content(*right)),
{
    match (left, right) {
        (ExactChannelQuery::Dense(left), ExactChannelQuery::Dense(right)) => same_bits(left, right),
        (ExactChannelQuery::Sparse(left), ExactChannelQuery::Sparse(right)) => {
            same_bits(&left.indices, &right.indices) && same_bits(&left.values, &right.values)
        },
        _ => false,
    }
}

/// The weights of channels, where they are given.
pub open spec fn bits_view(weights: Option<&Vec<u32>>) -> Option<Seq<u32>> {
    match weights {
        Some(weights) => Some(weights@),
        None => None,
    }
}

/// The weight of a channel; 1 where none is given.
pub open spec fn weight_of(weights: Option<Seq<u32>>, source: int) -> u32 {
    match weights {
        Some(weights) => if source < weights.len() {
            weights[source]
        } else {
            UNIT_WEIGHT_BITS
        },
        None => UNIT_WEIGHT_BITS,
    }
}

/// The weight of a channel; 1 where none is given.
fn source_weight(weights: Option<&Vec<u32>>, source: usize) -> (weight: u32)
    ensures
        weight == weight_of(bits_view(weights), source as int),
{
    match weights {
        Some(weights) => {
            if source < weights.len() {
                weights[source]
            } else {
                UNIT_WEIGHT_BITS
            }
        },
        None => UNIT_WEIGHT_BITS,
    }
}

/// What decides which channels share a stream.
pub struct Sharing {
    pub queries: Seq<ExactChannelQuery>,
    pub weights: Option<Seq<u32>>,
    pub dense: bool,
    pub sparse: bool,
}

impl Sharing {
    /// Whether a channel may share a stream.
    pub open spec fn enabled(self, source: int) -> bool {
        if is_dense(self.queries[source]) {
            self.dense
        } else {
            self.sparse
        }
    }

    /// Whether a channel can use the stream of another: sharing is enabled, and both
    /// have the same query and the same weight.
    pub open spec fn can_use(self, source: int, other: int) -> bool {
        &&& self.enabled(source)
        &&& same_query(self.queries[source], self.queries[other])
        &&& weight_of(self.weights, source) == weight_of(self.weights, other)
    }

    /// Whether the leading channels are grouped: a channel belongs to the first
    /// earlier representative whose stream it can use, and otherwise represents a
    /// group of its own. Groups are numbered in the order of their representatives.
    pub open spec fn is_grouping(
        self,
        groups: Seq<usize>,
        representatives: Seq<usize>,
    ) -> bool {
        &&& groups.len() <= self.queries.len()
        &&& forall|i: int, j: int|
            0 <= i < j < representatives.len() ==> #[trigger] representatives[i]
                < #[trigger] representatives[j]
        &&& forall|group: int|
            0 <= group < representatives.len() ==> {
                let representative = #[trigger] representatives[group];
                &&& representative < groups.len()
                &&& groups[representative as int] == group
                &&& forall|other: int|
                    0 <= other < group ==> !self.can_use(
                        representative as int,
                        #[trigger] representatives[other] as int,
                    )
            }
        &&& forall|source: int|
            0 <= source < groups.len() ==> {
                let group = #[trigger] groups[source];
                &&& group < representatives.len()
                &&& representatives[group as int] <= source
                &&& representatives[group as int] == source || self.can_use(
                    source,
                    representatives[group as int] as int,
                )
                &&& forall|other: int|
                    0 <= other < group ==> !self.can_use(
                        source,
                        #[trigger] representatives[other] as int,
                    )
            }
    }
}

/// Two groupings of the same channels are one.
pub proof fn law_grouping_is_unique(
    sharing: Sharing,
    left: Seq<usize>,
    left_representatives: Seq<usize>,
    right: Seq<usize>,
    right_representatives: Seq<usize>,
    upto: int,
)
    requires
        0 <= upto <= left.len(),
        left.len() == right.len(),
        sharing.is_grouping(left, left_representatives),
        sharing.is_grouping(right, right_representatives),
    ensures
        forall|source: int| 0 <= source < upto ==> #[trigger] left[source] == right[source],
        forall|group: int|
            0 <= group < left_representatives.len() && #[trigger] left_representatives[group] < upto
                ==> group < right_representatives.len() && right_representatives[group]
                == left_representatives[group],
        forall|group: int|
            0 <= group < right_representatives.len() && #[trigger] right_representatives[group]
                < upto ==> group < left_representatives.len() && left_representatives[group]
                == right_representatives[group],
    decreases upto,
{
    if upto > 0 {
        let source = upto - 1;
        law_grouping_is_unique(
            sharing,
            left,
            left_representatives,
            right,
            right_representatives,
            source,
        );
        let a = left[source] as int;
        let b = right[source] as int;
        let ra = left_representatives[a] as int;
        let rb = right_representatives[b] as int;
        if ra < source && rb < source {
            assert(right_representatives[a] == left_representatives[a]);
            assert(left_representatives[b] == right_representatives[b]);
            if a < b {
                assert(!sharing.can_use(source, right_representatives[a] as int));
            } else if b < a {
                assert(!sharing.can_use(source, left_representatives[b] as int));
            }
        } else if ra < source {
            assert(right_representatives[a] == left_representatives[a]);
            assert(rb == source);
            if a < b {
                assert(!sharing.can_use(source, right_representatives[a] as int));
            } else {
                assert(right_representatives[b] <= right_representatives[a]) by {
                    if b < a {
                        assert(right_representatives[b] < right_representatives[a]);
                    }
                }
            }
        } else if rb < source {
            assert(left_representatives[b] == right_representatives[b]);
            assert(ra == source);
            if b < a {
                assert(!sharing.can_use(source, left_representatives[b] as int));
            } else {
                assert(left_representatives[a] <= left_representatives[b]) by {
                    if a < b {
                        assert(left_representatives[a] < left_representatives[b]);
                    }
                }
            }
        } else {
            if a < b {
                let r = right_representatives[a];
                assert(right_representatives[a] < right_representatives[b]);
                assert(left_representatives[a] == right_representatives[a]);
            } else if b < a {
                assert(left_representatives[b] < left_representatives[a]);
                assert(right_representatives[b] == left_representatives[b]);
            }
        }
    }
}

/// Groups channels, and names the representative of every group.
pub fn exact_duplicate_groups(
    queries: &Vec<ExactChannelQuery>,
    weights: Option<&Vec<u32>>,
    share_dense: bool,
    share_sparse: bool,
) -> (result: (Vec<usize>, Vec<usize>))
    ensures
        result.0@.len() == queries@.len(),
        (Sharing {
            queries: queries@,
            weights: bits_view(weights),
            dense: share_dense,
            sparse: share_sparse,
        }).is_grouping(result.0@, result.1@),
{
    let ghost sharing = Sharing {
        queries: queries@,
        weights: bits_view(weights),
        dense: share_dense,
        sparse: share_sparse,
    };
    let mut groups: Vec<usize> = Vec::new();
    let mut representatives: Vec<usize> = Vec::new();
    let mut source: usize = 0;
    while source < queries.len()
        invariant
            source <= queries@.len(),
            sharing == (Sharing {
                queries: queries@,
                weights: bits_view(weights),
                dense: share_dense,
                sparse: share_sparse,
            }),
            groups@.len() == source,
            representatives@.len() <= source,
            sharing.is_grouping(groups@, representatives@),
        decreases queries@.len() - source,
    {
        let enabled = match &queries[source] {
            ExactChannelQuery::Dense(_) => share_dense,
            ExactChannelQuery::Sparse(_) => share_sparse,
        };
        let mut group: usize = 0;
        let mut found = false;
        while !found && group < representatives.len()
            invariant
                source < queries@.len(),
                sharing == (Sharing {
                    queries: queries@,
                    weights: bits_view(weights),
                    dense: share_dense,
                    sparse: share_sparse,
                }),
                enabled == sharing.enabled(source as int),
                group <= representatives@.len(),
                groups@.len() == source,
                sharing.is_grouping(groups@, representatives@),
                found ==> group < representatives@.len() && sharing.can_use(
                    source as int,
                    representatives@[group as int] as int,
                ),
                forall|other: int|
                    0 <= other < group ==> !sharing.can_use(
                        source as int,
                        #[trigger] representatives@[other] as int,
                    ),
            decreases representatives@.len() - group, (if found { 0int } else { 1int }),
        {
            let representative: usize = representatives[group];
            if enabled && queries_are_bitwise_identical(&queries[source], &queries[representative])
                && source_weight(weights, source) == source_weight(weights, representative) {
                found = true;
            } else {
                group += 1;
            }
        }
        let ghost before = groups@;
        let ghost known = representatives@;
        if !found {
            representatives.push(source);
        }
        groups.push(group);
        proof {
            assert forall|i: int, j: int| 0 <= i < j < representatives@.len() implies
                #[trigger] representatives@[i] < #[trigger] representatives@[j] by {
                if j < known.len() {
                    assert(known[i] < known[j]);
                } else {
                    assert(known[i] < before.len());
                }
            }
            assert forall|at: int| 0 <= at < representatives@.len() implies {
                let representative = #[trigger] representatives@[at];
                &&& representative < groups@.len()
                &&& groups@[representative as int] == at
                &&& forall|other: int|
                    0 <= other < at ==> !sharing.can_use(
                        representative as int,
                        #[trigger] representatives@[other] as int,
                    )
            } by {
                if at < known.len() {
                    let representative = known[at];
                    assert(groups@[representative as int] == before[representative as int]);
                    assert forall|other: int| 0 <= other < at implies !sharing.can_use(
                        representative as int,
                        #[trigger] representatives@[other] as int,
                    ) by {
                        assert(known[other] == representatives@[other]);
                    }
                } else {
                    assert forall|other: int| 0 <= other < at implies !sharing.can_use(
                        source as int,
                        #[trigger] representatives@[other] as int,
                    ) by {
                        assert(known[other] == representatives@[other]);
                    }
                }
            }
            assert forall|at: int| 0 <= at < groups@.len() implies {
                let chosen = #[trigger] groups@[at];
                &&& chosen < representatives@.len()
                &&& representatives@[chosen as int] <= at
                &&& representatives@[chosen as int] == at || sharing.can_use(
                    at,
                    representatives@[chosen as int] as int,
                )
                &&& forall|other: int|
                    0 <= other < chosen ==> !sharing.can_use(
                        at,
                        #[trigger] representatives@[other] as int,
                    )
            } by {
                if at < before.len() {
                    let chosen = before[at];
                    assert(known[chosen as int] == representatives@[chosen as int]);
                    assert forall|other: int| 0 <= other < chosen implies !sharing.can_use(
                        at,
                        #[trigger] representatives@[other] as int,
                    ) by {
                        assert(known[other] == representatives@[other]);
                    }
                } else {
                    assert forall|other: int| 0 <= other < group implies !sharing.can_use(
                        at,
                        #[trigger] representatives@[other] as int,
                    ) by {
                        assert(known[other] == representatives@[other]);
                    }
                    if found {
                        assert(known[group as int] < before.len());
                    }
                }
            }
        }
        source += 1;
    }
    (groups, representatives)
}

/// Which channels represent their group, where only dense channels share.
pub fn dense_representatives(queries: &Vec<ExactChannelQuery>, weights: Option<&Vec<u32>>) -> (flags:
    Vec<bool>)
    ensures
        flags@.len() == queries@.len(),
        exists|groups: Seq<usize>, representatives: Seq<usize>|
            {
                &&& groups.len() == queries@.len()
                &&& #[trigger] (Sharing {
                    queries: queries@,
                    weights: bits_view(weights),
                    dense: true,
                    sparse: false,
                }).is_grouping(groups, representatives)
                &&& forall|source: int|
                    0 <= source < queries@.len() ==> #[trigger] flags@[source] == (
                    representatives[groups[source] as int] == source)
            },
{
    let (groups, representatives) = exact_duplicate_groups(queries, weights, true, false);
    let mut flags: Vec<bool> = Vec::new();
    let mut source: usize = 0;
    while source < groups.len()
        invariant
            source <= groups@.len(),
            groups@.len() == queries@.len(),
            flags@.len() == source,
            forall|k: int|
                0 <= k < groups@.len() ==> #[trigger] groups@[k] < representatives@.len(),
            forall|k: int|
                0 <= k < source ==> #[trigger] flags@[k] == (representatives@[groups@[k] as int]
                    == k),
        decreases groups@.len() - source,
    {
        flags.push(representatives[groups[source]] == source);
        source += 1;
    }
    flags
}

/// A copy of a sparse vector.
pub fn copied_sparse(query: &RemappedSparseVector) -> (copy: RemappedSparseVector)
    ensures
        copy.indices@ == query.indices@,
        copy.values@ == query.values@,
{
    RemappedSparseVector { indices: copied(&query.indices), values: copied(&query.values) }
}

/// The places of sparse channels that represent their group, in their order.
pub open spec fn sparse_representatives(
    queries: Seq<ExactChannelQuery>,
    groups: Seq<usize>,
    representatives: Seq<usize>,
    upto: int,
) -> Seq<int>
    decreases upto,
{
    if upto <= 0 {
        Seq::empty()
    } else {
        let earlier = sparse_representatives(queries, groups, representatives, upto - 1);
        if representatives[groups[upto - 1] as int] == upto - 1 && !is_dense(queries[upto - 1]) {
            earlier.push(upto - 1)
        } else {
            earlier
        }
    }
}

/// Whether a row of sparse vectors holds the queries at the given places.
pub open spec fn holds_sparse(
    row: Seq<RemappedSparseVector>,
    queries: Seq<ExactChannelQuery>,
    places: Seq<int>,
) -> bool {
    &&& row.len() == places.len()
    &&& forall|i: int|
        0 <= i < row.len() ==> is_sparse_copy(#[trigger] row[i], queries[places[i]])
}

/// Whether a sparse vector is that of a query.
pub open spec fn is_sparse_copy(vector: RemappedSparseVector, query: ExactChannelQuery) -> bool {
    &&& query matches ExactChannelQuery::Sparse(sparse)
    &&& vector.indices@ == sparse.indices@
    &&& vector.values@ == sparse.values@
}

/// Whether a row holds the sparse queries without repetition.
pub open spec fn are_unique_sparse(
    unique: Seq<RemappedSparseVector>,
    queries: Seq<ExactChannelQuery>,
    weights: Option<Seq<u32>>,
) -> bool {
    exists|groups: Seq<usize>, representatives: Seq<usize>|
        {
            &&& groups.len() == queries.len()
            &&& #[trigger] (Sharing { queries, weights, dense: false, sparse: true }).is_grouping(
                groups,
                representatives,
            )
            &&& holds_sparse(
                unique,
                queries,
                sparse_representatives(queries, groups, representatives, queries.len() as int),
            )
        }
}

/// The sparse queries without repetition, where only sparse channels share.
pub fn unique_sparse_queries(queries: &Vec<ExactChannelQuery>, weights: Option<&Vec<u32>>) -> (unique:
    Vec<RemappedSparseVector>)
    ensures
        are_unique_sparse(unique@, queries@, bits_view(weights)),
{
    let (groups, representatives) = exact_duplicate_groups(queries, weights, false, true);
    let mut unique: Vec<RemappedSparseVector> = Vec::new();
    let mut source: usize = 0;
    while source < queries.len()
        invariant
            source <= groups@.len(),
            groups@.len() == queries@.len(),
            forall|k: int|
                0 <= k < groups@.len() ==> #[trigger] groups@[k] < representatives@.len(),
            holds_sparse(
                unique@,
                queries@,
                sparse_representatives(queries@, groups@, representatives@, source as int),
            ),
        decreases groups@.len() - source,
    {
        let ghost places = sparse_representatives(
            queries@,
            groups@,
            representatives@,
            source as int,
        );
        let ghost following = sparse_representatives(
            queries@,
            groups@,
            representatives@,
            source + 1,
        );
        proof {
            assert(following == (if representatives@[groups@[source as int] as int] == source
                && !is_dense(queries@[source as int]) {
                places.push(source as int)
            } else {
                places
            }));
        }
        match &queries[source] {
            ExactChannelQuery::Dense(_) => {},
            ExactChannelQuery::Sparse(query) => {
                if representatives[groups[source]] == source {
                    let ghost before = unique@;
                    let copy = copied_sparse(query);
                    assert(is_sparse_copy(copy, queries@[source as int]));
                    unique.push(copy);
                    proof {
                        assert forall|i: int| 0 <= i < unique@.len() implies is_sparse_copy(
                            #[trigger] unique@[i],
                            queries@[following[i]],
                        ) by {
                            if i < before.len() {
                                assert(is_sparse_copy(before[i], queries@[places[i]]));
                            }
                        }
                    }
                }
            },
        }
        source += 1;
    }
    unique
}

/// What sharing saves.
#[derive(Clone, Copy, Debug, Default, PartialEq, Eq, Structural)]
pub struct RankStreamSharingTelemetry {
    pub logical_streams: usize,
    pub physical_streams: usize,
    pub shared_groups: usize,
    pub logical_pulls: usize,
    pub physical_pulls: usize,
    pub buffered_identities: usize,
}

/// The streams of channels; the channels of a group read one stream.
pub struct RankBank<S> {
    streams: Vec<SharedRankStream<S>>,
    group_of: Vec<usize>,
    reader_of: Vec<usize>,
}

impl<S: ExactRrfStream> RankBank<S> {
    /// Whether every channel is a reader of its own.
    pub closed spec fn wf(&self) -> bool {
        &&& self.group_of@.len() == self.reader_of@.len()
        &&& forall|group: int| 0 <= group < self.streams@.len() ==> (#[trigger] self.streams@[group]).wf()
        &&& forall|source: int|
            0 <= source < self.group_of@.len() ==> {
                &&& (#[trigger] self.group_of@[source]) < self.streams@.len()
                &&& is_active(
                    self.streams@[self.group_of@[source] as int]@.readers,
                    self.reader_of@[source] as int,
                )
            }
        &&& forall|left: int, right: int|
            0 <= left < right < self.group_of@.len() && #[trigger] self.group_of@[left]
                == #[trigger] self.group_of@[right] ==> self.reader_of@[left]
                != self.reader_of@[right]
    }

    /// The number of channels.
    pub closed spec fn count(&self) -> nat {
        self.group_of@.len()
    }

    /// The group of every channel.
    pub closed spec fn groups(&self) -> Seq<usize> {
        self.group_of@
    }

    /// The number of physical streams.
    pub closed spec fn physical(&self) -> nat {
        self.streams@.len()
    }

    /// What a physical stream has done.
    pub closed spec fn replay(&self, group: int) -> ReplayView {
        self.streams@[group]@
    }

    /// The producer of a physical stream.
    pub closed spec fn producer(&self, group: int) -> Option<S> {
        self.streams@[group].producer()
    }

    /// The producer of the physical stream of a channel.
    pub fn source(&self, channel: usize) -> (source: Option<&S>)
        requires
            self.wf(),
            channel < self.count(),
        ensures
            match source {
                Some(producer) => self.producer(self.groups()[channel as int] as int) == Some(
                    *producer,
                ),
                None => self.producer(self.groups()[channel as int] as int) is None,
            },
    {
        self.streams[self.group_of[channel]].source()
    }

    /// Whether a channel is the first that reads its physical stream, and what that stream
    /// has done.
    pub fn progress(&self, channel: usize) -> (progress: (bool, SharedRankStreamTelemetry))
        requires
            self.wf(),
            channel < self.count(),
        ensures
            progress.0 == (self.reader(channel as int) == 0),
            progress.1 == replay_telemetry(self.replay(self.groups()[channel as int] as int)),
    {
        (self.reader_of[channel] == 0, self.streams[self.group_of[channel]].telemetry())
    }

    /// What the physical streams have done.
    pub open spec fn replays(&self) -> Seq<ReplayView> {
        Seq::new(self.physical(), |group: int| self.replay(group))
    }

    /// The numbers under which the channels read their physical streams.
    pub open spec fn readers(&self) -> Seq<usize> {
        Seq::new(self.count(), |source: int| self.reader(source))
    }

    /// The number under which a channel reads its physical stream.
    pub closed spec fn reader(&self, source: int) -> usize {
        self.reader_of@[source]
    }

    /// The rank that a channel reads next.
    pub closed spec fn position(&self, source: int) -> usize {
        self.streams@[self.group_of@[source] as int]@.readers[self.reader_of@[source] as int]->0
    }

    /// Whether a channel has read everything that its physical stream has yielded, for
    /// every physical stream that has yielded anything.
    pub open spec fn is_led(&self) -> bool {
        forall|group: int|
            0 <= group < self.physical() && #[trigger] self.replay(group).produced.len() > 0
                ==> self.has_leader(group)
    }

    /// Whether a channel has read everything that a physical stream has yielded.
    pub open spec fn has_leader(&self, group: int) -> bool {
        exists|source: int|
            0 <= source < self.count() && self.groups()[source] == group
                && #[trigger] self.position(source) == self.replay(group).produced.len()
    }

    /// What a physical stream has yielded can be counted.
    pub proof fn lemma_produced(&self, group: int)
        requires
            self.wf(),
            0 <= group < self.physical(),
        ensures
            self.replay(group).produced.len() <= usize::MAX,
    {
        self.streams@[group].lemma_replay_is_valid();
    }

    /// No channel has read more than its physical stream has yielded.
    pub proof fn lemma_positions(&self, source: int)
        requires
            self.wf(),
            0 <= source < self.count(),
        ensures
            self.groups().len() == self.count(),
            self.groups()[source] < self.physical(),
            self.position(source) <= self.replay(self.groups()[source] as int).produced.len(),
    {
        let _ = self.group_of@[source];
        let stream = self.streams@[self.group_of@[source] as int];
        stream.lemma_replay_is_valid();
        let _ = stream@.readers[self.reader_of@[source] as int];
    }

    /// Whether every channel, read to its end, is the given ranking and never fails.
    pub closed spec fn follows(&self, rankings: Seq<Seq<ExtendedPointId>>) -> bool {
        &&& rankings.len() == self.group_of@.len()
        &&& forall|source: int| 0 <= source < rankings.len() ==> self.source_follows(
            source,
            #[trigger] rankings[source],
        )
    }

    /// Whether one channel, read to its end, is the given ranking.
    pub open spec fn source_follows(&self, source: int, ranking: Seq<ExtendedPointId>) -> bool {
        self.source_leads(source, ranking, None)
    }

    /// Whether one channel, read to its end, is the given ranking, or fails as given after a
    /// first part of it.
    pub closed spec fn source_leads(
        &self,
        source: int,
        ranking: Seq<ExtendedPointId>,
        failure: Option<OperationError>,
    ) -> bool {
        let stream = self.streams@[self.group_of@[source] as int];
        stream.leads(ranking, failure) && !stream@.cancelled
    }

    /// Channels that follow rankings do so one by one.
    pub proof fn lemma_follows(&self, rankings: Seq<Seq<ExtendedPointId>>)
        ensures
            self.follows(rankings) <==> rankings.len() == self.count() && forall|source: int|
                0 <= source < rankings.len() ==> self.source_follows(
                    source,
                    #[trigger] rankings[source],
                ),
    {
    }

    /// The next identity of a channel. Where the channels follow rankings, this is
    /// the identity at the channel's rank, whatever the others have read.
    pub fn next(&mut self, source: usize) -> (result: OperationResult<Option<ExtendedPointId>>)
        requires
            old(self).wf(),
            source < old(self).count(),
        ensures
            final(self).wf(),
            final(self).count() == old(self).count(),
            final(self).groups() == old(self).groups(),
            final(self).physical() == old(self).physical(),
            forall|other: int| #[trigger] final(self).reader(other) == old(self).reader(other),
            forall|group: int|
                0 <= group < old(self).physical() && group != old(self).groups()[source as int]
                    ==> #[trigger] final(self).replay(group) == old(self).replay(group),
            old(self).groups()[source as int] < old(self).physical(),
            old(self).replay(old(self).groups()[source as int] as int).asked_by(
                old(self).reader(source as int) as int,
                result,
                final(self).replay(old(self).groups()[source as int] as int),
            ),
            old(self).position(source as int) == old(self).replay(
                old(self).groups()[source as int] as int,
            ).readers[old(self).reader(source as int) as int]->0,
            result is Ok ==> forall|
                other: int,
                ranking: Seq<ExtendedPointId>,
                failure: Option<OperationError>,
            |
                0 <= other < old(self).count() && #[trigger] old(self).source_leads(
                    other,
                    ranking,
                    failure,
                ) ==> final(self).source_leads(other, ranking, failure),
            forall|other: int, ranking: Seq<ExtendedPointId>, failure: Option<OperationError>|
                0 <= other < old(self).count() && old(self).groups()[other]
                    != old(self).groups()[source as int] && #[trigger] old(self).source_leads(
                    other,
                    ranking,
                    failure,
                ) ==> final(self).source_leads(other, ranking, failure),
            forall|ranking: Seq<ExtendedPointId>, failure: Option<OperationError>| #[trigger]
                old(self).source_leads(source as int, ranking, failure) ==> {
                    let rank = old(self).position(source as int);
                    match result {
                        Ok(id) => if rank < ranking.len() {
                            &&& id == Some(ranking[rank as int])
                            &&& final(self).position(source as int) == rank + 1
                        } else {
                            &&& id is None
                            &&& final(self).position(source as int) == rank
                        },
                        Err(error) => failure == Some(error),
                    }
                },
            forall|other: int|
                0 <= other < old(self).count() && other != source
                    ==> #[trigger] final(self).position(other) == old(self).position(other),
            result matches Ok(id) ==> final(self).position(source as int) == old(self).position(
                source as int,
            ) + (if id is Some {
                1int
            } else {
                0
            }),
            old(self).is_led() ==> final(self).is_led(),
            forall|group: int|
                0 <= group < old(self).physical() ==> asks_once(
                    old(self).producer(group),
                    #[trigger] final(self).producer(group),
                ),
    {
        let ghost before = *self;
        let group: usize = self.group_of[source];
        let reader: usize = self.reader_of[source];
        let stream = &mut self.streams[group];
        let result = stream.next(reader);
        proof {
            let after = *self;
            assert forall|other: int| 0 <= other < after.group_of@.len() implies {
                &&& (#[trigger] after.group_of@[other]) < after.streams@.len()
                &&& is_active(
                    after.streams@[after.group_of@[other] as int]@.readers,
                    after.reader_of@[other] as int,
                )
            } by {
                let _ = before.group_of@[other];
                if before.group_of@[other] == group && other != source {
                    if other < source {
                        assert(before.reader_of@[other] != before.reader_of@[source as int]);
                    } else {
                        assert(before.reader_of@[source as int] != before.reader_of@[other]);
                    }
                    let place = before.reader_of@[other] as int;
                    assert(after.streams@[group as int]@.readers[place]
                        == before.streams@[group as int]@.readers[place]);
                }
            }
            assert forall|at: int| 0 <= at < after.streams@.len() implies (
            #[trigger] after.streams@[at]).wf() by {
                let _ = before.streams@[at];
            }
            assert forall|other: int|
                0 <= other < before.count() && other != source implies #[trigger] after.position(
                other,
            ) == before.position(other) by {
                let _ = before.group_of@[other];
                if before.group_of@[other] == group {
                    if other < source {
                        assert(before.reader_of@[other] != before.reader_of@[source as int]);
                    } else {
                        assert(before.reader_of@[source as int] != before.reader_of@[other]);
                    }
                    let place = before.reader_of@[other] as int;
                    assert(after.streams@[group as int]@.readers[place]
                        == before.streams@[group as int]@.readers[place]);
                }
            }
            before.lemma_positions(source as int);
            before.lemma_produced(group as int);
            assert(is_active(before.streams@[group as int]@.readers, reader as int));
            if before.is_led() {
                assert forall|at: int|
                    0 <= at < after.physical() && #[trigger] after.replay(at).produced.len()
                        > 0 implies after.has_leader(at) by {
                    if at != group {
                        assert(after.replay(at) == before.replay(at));
                        assert(before.replay(at).produced.len() > 0);
                        assert(before.has_leader(at));
                        let leader = choose|leader: int|
                            0 <= leader < before.count() && before.groups()[leader] == at
                                && #[trigger] before.position(leader) == before.replay(
                                at,
                            ).produced.len();
                        assert(after.position(leader) == before.position(leader));
                    } else if before.replay(at).produced.len() == after.replay(at).produced.len() {
                        assert(before.replay(at).produced.len() > 0);
                        assert(before.has_leader(at));
                        let leader = choose|leader: int|
                            0 <= leader < before.count() && before.groups()[leader] == at
                                && #[trigger] before.position(leader) == before.replay(
                                at,
                            ).produced.len();
                        assert(after.position(leader) == before.position(leader));
                    } else {
                        assert(after.position(source as int) == after.replay(at).produced.len());
                    }
                }
            }
            assert forall|
                other: int,
                ranking: Seq<ExtendedPointId>,
                failure: Option<OperationError>,
            |
                0 <= other < before.count() && (result is Ok || before.group_of@[other] != group)
                    && #[trigger] before.source_leads(other, ranking, failure) implies
                after.source_leads(other, ranking, failure) by {
                let _ = before.group_of@[other];
                assert(before.streams@[before.group_of@[other] as int].leads(ranking, failure));
            }
            assert forall|ranking: Seq<ExtendedPointId>, failure: Option<OperationError>| #[trigger]
                before.source_leads(source as int, ranking, failure) implies {
                let rank = before.position(source as int);
                match result {
                    Ok(id) => if rank < ranking.len() {
                        &&& id == Some(ranking[rank as int])
                        &&& after.position(source as int) == rank + 1
                    } else {
                        &&& id is None
                        &&& after.position(source as int) == rank
                    },
                    Err(error) => failure == Some(error),
                }
            } by {
                assert(before.streams@[group as int].leads(ranking, failure));
                before.streams@[group as int].lemma_led_is_counted(ranking, failure);
            }
        }
        result
    }

    /// Every channel has a group.
    pub proof fn lemma_groups_len(&self)
        ensures
            self.groups().len() == self.count(),
    {
    }

    /// What every group has done, for reports.
    pub fn observer(&self) -> (observer: RankStreamSharingObserver)
        requires
            self.wf(),
        ensures
            self.physical() <= usize::MAX,
            observer.members() == group_members(self.groups(), self.physical()),
            observer.pulls().len() == self.physical(),
            observer.peaks().len() == self.physical(),
            forall|group: int|
                0 <= group < self.physical() ==> #[trigger] observer.pulls()[group] == self.replay(
                    group,
                ).produced.len(),
            forall|group: int|
                0 <= group < self.physical() ==> #[trigger] observer.peaks()[group]
                    == replay_telemetry(self.replay(group)).peak_buffered_identities,
    {
        let mut physical_pulls: Vec<usize> = Vec::new();
        let mut peaks: Vec<usize> = Vec::new();
        let mut group: usize = 0;
        while group < self.streams.len()
            invariant
                self.wf(),
                group <= self.streams@.len(),
                physical_pulls@.len() == group,
                peaks@.len() == group,
                forall|k: int|
                    0 <= k < group ==> {
                        &&& #[trigger] physical_pulls@[k] == self.replay(k).produced.len()
                        &&& peaks@[k] == replay_telemetry(self.replay(k)).peak_buffered_identities
                    },
            decreases self.streams@.len() - group,
        {
            let telemetry = self.streams[group].telemetry();
            proof {
                let _ = self.streams@[group as int];
                self.streams@[group as int].lemma_replay_is_valid();
            }
            physical_pulls.push(telemetry.physical_pulls);
            peaks.push(telemetry.peak_buffered_identities);
            group += 1;
        }
        proof {
            assert forall|source: int| 0 <= source < self.group_of@.len() implies
                #[trigger] self.group_of@[source] < self.streams@.len() by {}
        }
        assert(self.streams.len() <= usize::MAX);
        let members = members_by_group(&self.group_of, self.streams.len());
        let ghost counted = physical_pulls@;
        let observer = RankStreamSharingObserver { group_members: members, physical_pulls, peaks };
        proof {
            assert(observer.members() =~= group_members(self.groups(), self.physical()));
            assert forall|group: int| 0 <= group < self.physical() implies
                #[trigger] observer.pulls()[group] == self.replay(group).produced.len() by {
                assert(counted[group] == self.replay(group).produced.len());
            }
            assert forall|group: int| 0 <= group < self.physical() implies
                #[trigger] observer.peaks()[group] == replay_telemetry(
                self.replay(group),
            ).peak_buffered_identities by {
                assert(counted[group] == self.replay(group).produced.len());
            }
        }
        observer
    }
}

/// The channels of a group, in their order.
pub open spec fn members_of_group(groups: Seq<usize>, group: int, upto: int) -> Seq<usize>
    decreases upto,
{
    if upto <= 0 {
        Seq::empty()
    } else if groups[upto - 1] == group {
        members_of_group(groups, group, upto - 1).push((upto - 1) as usize)
    } else {
        members_of_group(groups, group, upto - 1)
    }
}

/// The channels of a group are channels.
pub proof fn lemma_members_are_sources(groups: Seq<usize>, group: int, upto: int)
    requires
        0 <= upto <= groups.len(),
    ensures
        forall|i: int|
            0 <= i < members_of_group(groups, group, upto).len() ==> #[trigger] members_of_group(
                groups,
                group,
                upto,
            )[i] < upto,
    decreases upto,
{
    if upto > 0 {
        lemma_members_are_sources(groups, group, upto - 1);
        let shorter = members_of_group(groups, group, upto - 1);
        let longer = members_of_group(groups, group, upto);
        assert forall|i: int| 0 <= i < longer.len() implies #[trigger] longer[i] < upto by {
            if i < shorter.len() {
                assert(shorter[i] < upto - 1);
            }
        }
    }
}

/// The channels of every group.
pub open spec fn group_members(groups: Seq<usize>, count: nat) -> Seq<Seq<usize>> {
    Seq::new(count, |group: int| members_of_group(groups, group, groups.len() as int))
}

/// The channels of every group.
fn members_by_group(groups: &Vec<usize>, count: usize) -> (members: Vec<Vec<usize>>)
    requires
        forall|source: int| 0 <= source < groups@.len() ==> #[trigger] groups@[source] < count,
    ensures
        members@.len() == count,
        forall|group: int|
            0 <= group < count ==> (#[trigger] members@[group])@ == members_of_group(
                groups@,
                group,
                groups@.len() as int,
            ),
{
    let mut members: Vec<Vec<usize>> = Vec::new();
    while members.len() < count
        invariant
            members@.len() <= count,
            forall|group: int|
                0 <= group < members@.len() ==> (#[trigger] members@[group])@ == Seq::<
                    usize,
                >::empty(),
        decreases count - members@.len(),
    {
        members.push(Vec::new());
    }
    let mut source: usize = 0;
    while source < groups.len()
        invariant
            source <= groups@.len(),
            members@.len() == count,
            forall|k: int| 0 <= k < groups@.len() ==> #[trigger] groups@[k] < count,
            forall|group: int|
                0 <= group < count ==> (#[trigger] members@[group])@ == members_of_group(
                    groups@,
                    group,
                    source as int,
                ),
        decreases groups@.len() - source,
    {
        let group: usize = groups[source];
        let ghost before = members@;
        let row = &mut members[group];
        row.push(source);
        proof {
            assert forall|other: int| 0 <= other < count implies (#[trigger] members@[other])@
                == members_of_group(groups@, other, source + 1) by {
                assert(before[other]@ == members_of_group(groups@, other, source as int));
            }
        }
        source += 1;
    }
    members
}

/// What the groups of a bank have done.
#[derive(Debug)]
pub struct RankStreamSharingObserver {
    group_members: Vec<Vec<usize>>,
    physical_pulls: Vec<usize>,
    peaks: Vec<usize>,
}

/// The pulls of a group: those of its channel, or of the shared stream.
pub open spec fn group_pulls(
    members: Seq<usize>,
    shared_pulls: usize,
    source_pulls: Seq<usize>,
) -> usize {
    if members.len() == 1 {
        source_pulls[members[0] as int]
    } else {
        shared_pulls
    }
}

/// What the leading groups add up to: shared groups, physical pulls and buffered
/// identities.
pub open spec fn tally(
    members: Seq<Seq<usize>>,
    pulls: Seq<usize>,
    peaks: Seq<usize>,
    source_pulls: Seq<usize>,
    upto: int,
) -> (usize, usize, usize)
    decreases upto,
{
    if upto <= 0 {
        (0, 0, 0)
    } else {
        let (shared, physical, buffered) = tally(members, pulls, peaks, source_pulls, upto - 1);
        let group = upto - 1;
        if members[group].len() == 1 {
            (
                shared,
                physical.saturating_add(group_pulls(members[group], pulls[group], source_pulls)),
                buffered,
            )
        } else {
            (
                shared.saturating_add(1),
                physical.saturating_add(group_pulls(members[group], pulls[group], source_pulls)),
                buffered.saturating_add(peaks[group]),
            )
        }
    }
}

/// The sum of the leading pulls.
pub open spec fn sum_of(pulls: Seq<usize>, upto: int) -> usize
    decreases upto,
{
    if upto <= 0 {
        0
    } else {
        sum_of(pulls, upto - 1).saturating_add(pulls[upto - 1])
    }
}

impl RankStreamSharingObserver {
    /// The channels of every group.
    pub closed spec fn members(&self) -> Seq<Seq<usize>> {
        Seq::new(self.group_members@.len(), |group: int| self.group_members@[group]@)
    }

    /// The pulls of every physical stream.
    pub closed spec fn pulls(&self) -> Seq<usize> {
        self.physical_pulls@
    }

    /// The largest replay buffer of every physical stream.
    pub closed spec fn peaks(&self) -> Seq<usize> {
        self.peaks@
    }

    /// What sharing saves, given the pulls of the channels.
    pub fn telemetry(&self, source_pulls: &Vec<usize>) -> (telemetry: RankStreamSharingTelemetry)
        requires
            self.pulls().len() == self.members().len(),
            self.peaks().len() == self.members().len(),
            forall|group: int, i: int|
                0 <= group < self.members().len() && 0 <= i < self.members()[group].len()
                    ==> #[trigger] self.members()[group][i] < source_pulls@.len(),
        ensures
            ({
                let (shared, physical, buffered) = tally(
                    self.members(),
                    self.pulls(),
                    self.peaks(),
                    source_pulls@,
                    self.members().len() as int,
                );
                telemetry == (RankStreamSharingTelemetry {
                    logical_streams: source_pulls@.len() as usize,
                    physical_streams: self.members().len() as usize,
                    shared_groups: shared,
                    logical_pulls: sum_of(source_pulls@, source_pulls@.len() as int),
                    physical_pulls: physical,
                    buffered_identities: buffered,
                })
            }),
    {
        let ghost members = self.members();
        let mut shared_groups: usize = 0;
        let mut physical_pulls: usize = 0;
        let mut buffered_identities: usize = 0;
        let mut group: usize = 0;
        while group < self.group_members.len()
            invariant
                group <= self.group_members@.len(),
                members == self.members(),
                members.len() == self.group_members@.len(),
                self.pulls().len() == members.len(),
                self.peaks().len() == members.len(),
                forall|at: int, i: int|
                    0 <= at < members.len() && 0 <= i < members[at].len()
                        ==> #[trigger] members[at][i] < source_pulls@.len(),
                (shared_groups, physical_pulls, buffered_identities) == tally(
                    members,
                    self.pulls(),
                    self.peaks(),
                    source_pulls@,
                    group as int,
                ),
            decreases self.group_members@.len() - group,
        {
            assert(members[group as int] == self.group_members@[group as int]@);
            if self.group_members[group].len() == 1 {
                let source: usize = self.group_members[group][0];
                assert(members[group as int][0] == source);
                physical_pulls = physical_pulls.saturating_add(source_pulls[source]);
            } else {
                shared_groups = shared_groups.saturating_add(1);
                physical_pulls = physical_pulls.saturating_add(self.physical_pulls[group]);
                buffered_identities = buffered_identities.saturating_add(self.peaks[group]);
            }
            group += 1;
        }
        let mut logical_pulls: usize = 0;
        let mut source: usize = 0;
        while source < source_pulls.len()
            invariant
                source <= source_pulls@.len(),
                logical_pulls == sum_of(source_pulls@, source as int),
            decreases source_pulls@.len() - source,
        {
            logical_pulls = logical_pulls.saturating_add(source_pulls[source]);
            source += 1;
        }
        RankStreamSharingTelemetry {
            logical_streams: source_pulls.len(),
            physical_streams: self.group_members.len(),
            shared_groups,
            logical_pulls,
            physical_pulls,
            buffered_identities,
        }
    }
}

/// Whether the representatives of the channels, from their beginning, yield the
/// given rankings.
pub open spec fn representatives_yield<S: ExactRrfStream>(
    sources: Seq<S>,
    groups: Seq<usize>,
    representatives: Seq<usize>,
    rankings: Seq<Seq<ExtendedPointId>>,
) -> bool {
    &&& rankings.len() == sources.len()
    &&& forall|source: int|
        0 <= source < sources.len() ==> {
            &&& sources[representatives[groups[source] as int] as int].rest() == Some(
                #[trigger] rankings[source],
            )
            &&& rankings[source].len() <= usize::MAX
        }
}

/// Whether the representatives of the channels, from their beginning, yield the given
/// rankings, or first parts of them up to the given failures.
pub open spec fn representatives_lead<S: ExactRrfStream>(
    sources: Seq<S>,
    groups: Seq<usize>,
    representatives: Seq<usize>,
    rankings: Seq<Seq<ExtendedPointId>>,
    failures: Seq<Option<OperationError>>,
) -> bool {
    &&& rankings.len() == sources.len()
    &&& failures.len() == sources.len()
    &&& forall|source: int|
        0 <= source < sources.len() ==> {
            let stream = sources[representatives[groups[source] as int] as int];
            &&& leads_from_start(
                stream.rest(),
                stream.failing(),
                #[trigger] rankings[source],
                failures[source],
            )
            &&& rankings[source].len() <= usize::MAX
        }
}

/// Whether a shared stream leads wherever the stream beneath it does.
spec fn leads_as<S: ExactRrfStream>(source: S, shared: SharedRankStream<S>) -> bool {
    forall|ranking: Seq<ExtendedPointId>, failure: Option<OperationError>|
        leads_from_start(source.rest(), source.failing(), ranking, failure) && ranking.len()
            <= usize::MAX ==> #[trigger] shared.leads(ranking, failure)
}

/// The buffer of a stream that was not read, and that has a number of readers.
pub open spec fn unread(readers: nat) -> ReplayView {
    ReplayView {
        produced: Seq::empty(),
        base: 0,
        readers: Seq::new(readers, |reader: int| Some(0usize)),
        exhausted: false,
        cancelled: false,
        peak: 0,
    }
}

/// Lets channels with the same query and weight read one stream. Of the streams of a
/// group the first is used.
pub fn share_identical_rank_streams<S: ExactRrfStream>(
    queries: &Vec<ExactChannelQuery>,
    sources: Vec<S>,
    weights: Option<&Vec<u32>>,
    share_dense: bool,
    share_sparse: bool,
) -> (bank: RankBank<S>)
    requires
        queries@.len() == sources@.len(),
    ensures
        bank.wf(),
        bank.count() == sources@.len(),
        forall|source: int| 0 <= source < bank.count() ==> #[trigger] bank.position(source) == 0,
        forall|group: int|
            0 <= group < bank.physical() ==> #[trigger] bank.replay(group) == unread(
                members_of_group(bank.groups(), group, bank.count() as int).len(),
            ),
        forall|source: int|
            0 <= source < bank.count() ==> #[trigger] bank.reader(source) == members_of_group(
                bank.groups(),
                bank.groups()[source] as int,
                source,
            ).len(),
        exists|representatives: Seq<usize>|
            {
                &&& #[trigger] (Sharing {
                    queries: queries@,
                    weights: bits_view(weights),
                    dense: share_dense,
                    sparse: share_sparse,
                }).is_grouping(bank.groups(), representatives)
                &&& bank.physical() == representatives.len()
                &&& forall|group: int|
                    0 <= group < representatives.len() ==> #[trigger] bank.producer(group) == Some(
                        sources@[representatives[group] as int],
                    )
                &&& forall|rankings: Seq<Seq<ExtendedPointId>>| #[trigger]
                    representatives_yield(sources@, bank.groups(), representatives, rankings)
                        ==> bank.follows(rankings)
                &&& forall|
                    rankings: Seq<Seq<ExtendedPointId>>,
                    failures: Seq<Option<OperationError>>,
                | #[trigger]
                    representatives_lead(
                        sources@,
                        bank.groups(),
                        representatives,
                        rankings,
                        failures,
                    ) ==> forall|source: int|
                        0 <= source < rankings.len() ==> bank.source_leads(
                            source,
                            #[trigger] rankings[source],
                            failures[source],
                        )
            },
{
    let ghost sharing = Sharing {
        queries: queries@,
        weights: bits_view(weights),
        dense: share_dense,
        sparse: share_sparse,
    };
    let (groups, representatives) = exact_duplicate_groups(
        queries,
        weights,
        share_dense,
        share_sparse,
    );
    let ghost given = sources@;
    let ghost all = groups@;
    let mut waiting = sources;
    let mut streams: Vec<SharedRankStream<S>> = Vec::new();
    let mut group_of: Vec<usize> = Vec::new();
    let mut reader_of: Vec<usize> = Vec::new();
    assert(given.skip(0) =~= given);
    while waiting.len() > 0
        invariant
            sharing.is_grouping(all, representatives@),
            all == groups@,
            all.len() == given.len(),
            group_of@.len() + waiting@.len() == given.len(),
            reader_of@.len() == group_of@.len(),
            waiting@ == given.skip(group_of@.len() as int),
            group_of@ =~= all.take(group_of@.len() as int),
            streams@.len() <= representatives@.len(),
            forall|group: int|
                0 <= group < representatives@.len() ==> (#[trigger] representatives@[group]
                    < group_of@.len() <==> group < streams@.len()),
            forall|group: int|
                0 <= group < streams@.len() ==> {
                    &&& (#[trigger] streams@[group]).wf()
                    &&& streams@[group]@.produced.len() == 0
                    &&& !streams@[group]@.cancelled
                    &&& forall|reader: int|
                        0 <= reader < streams@[group]@.readers.len()
                            ==> #[trigger] streams@[group]@.readers[reader] == Some(0usize)
                    &&& streams@[group]@ == unread(
                        members_of_group(all, group, group_of@.len() as int).len(),
                    )
                    &&& leads_as(given[representatives@[group] as int], streams@[group])
                    &&& streams@[group].producer() == Some(given[representatives@[group] as int])
                },
            forall|source: int|
                0 <= source < group_of@.len() ==> #[trigger] reader_of@[source]
                    == members_of_group(all, all[source] as int, source).len(),
            forall|group: int|
                streams@.len() <= group < representatives@.len() ==> #[trigger] members_of_group(
                    all,
                    group,
                    group_of@.len() as int,
                ).len() == 0,
            forall|source: int|
                0 <= source < group_of@.len() ==> (#[trigger] reader_of@[source])
                    < streams@[group_of@[source] as int]@.readers.len(),
            forall|left: int, right: int|
                0 <= left < right < group_of@.len() && #[trigger] group_of@[left]
                    == #[trigger] group_of@[right] ==> reader_of@[left] < reader_of@[right],
        decreases waiting@.len(),
    {
        let ghost before_waiting = waiting@;
        let ghost done = group_of@.len() as int;
        let source = waiting.remove(0);
        let group: usize = groups[group_of.len()];
        assert(source == given[done]);
        assert(before_waiting.remove(0) =~= given.skip(done + 1));
        proof {
            let _ = all[done];
            let representative = representatives@[group as int] as int;
            assert(representative <= done);
            if group < streams@.len() {
            } else {
                assert(representative == done);
                if group > streams@.len() {
                    let earlier = streams@.len() as int;
                    assert(representatives@[earlier] < representatives@[group as int]);
                }
            }
        }
        let ghost held = streams@;
        if group == streams.len() {
            streams.push(SharedRankStream::new(source));
        }
        let ghost opened = streams@;
        let stream = &mut streams[group];
        let reader: usize = stream.subscribe();
        let ghost before_groups = group_of@;
        let ghost before_readers = reader_of@;
        group_of.push(group);
        reader_of.push(reader);
        proof {
            assert(group_of@ =~= all.take(done + 1));
            assert forall|at: int| streams@.len() <= at < representatives@.len() implies
                #[trigger] members_of_group(all, at, done + 1).len() == 0 by {
                assert(members_of_group(all, at, done).len() == 0);
                assert(all[done] == group);
            }
            assert forall|at: int| 0 <= at < representatives@.len() implies (
            #[trigger] representatives@[at] < group_of@.len() <==> at < streams@.len()) by {
                if at >= held.len() && at != group as int {
                    if representatives@[at] == done {
                        assert(all[representatives@[at] as int] == at);
                    }
                }
            }
            assert forall|at: int| 0 <= at < streams@.len() implies {
                &&& (#[trigger] streams@[at]).wf()
                &&& streams@[at]@.produced.len() == 0
                &&& !streams@[at]@.cancelled
                &&& forall|reader: int|
                    0 <= reader < streams@[at]@.readers.len()
                        ==> #[trigger] streams@[at]@.readers[reader] == Some(0usize)
                &&& streams@[at]@ == unread(members_of_group(all, at, done + 1).len())
                &&& leads_as(given[representatives@[at] as int], streams@[at])
                &&& streams@[at].producer() == Some(given[representatives@[at] as int])
            } by {
                if at < held.len() {
                    let _ = held[at];
                } else {
                    assert(members_of_group(all, at, done).len() == 0);
                }
                assert(streams@[at]@.readers =~= unread(
                    members_of_group(all, at, done + 1).len(),
                ).readers);
                assert(leads_as(given[representatives@[at] as int], opened[at]));
            }
            assert forall|at: int| 0 <= at < group_of@.len() implies (#[trigger] reader_of@[at])
                < streams@[group_of@[at] as int]@.readers.len() by {
                if at < done {
                    assert(before_readers[at] < held[before_groups[at] as int]@.readers.len());
                }
            }
            assert forall|left: int, right: int|
                0 <= left < right < group_of@.len() && #[trigger] group_of@[left]
                    == #[trigger] group_of@[right] implies reader_of@[left] < reader_of@[right] by {
                if right == done {
                    assert(before_readers[left] < held[before_groups[left] as int]@.readers.len());
                } else {
                    assert(before_groups[left] == before_groups[right]);
                }
            }
        }
    }
    let bank = RankBank { streams, group_of, reader_of };
    proof {
        assert(bank.groups() =~= all);
        assert(bank.wf()) by {
            assert forall|source: int| 0 <= source < bank.group_of@.len() implies {
                &&& (#[trigger] bank.group_of@[source]) < bank.streams@.len()
                &&& is_active(
                    bank.streams@[bank.group_of@[source] as int]@.readers,
                    bank.reader_of@[source] as int,
                )
            } by {
                let _ = all[source];
                let _ = representatives@[all[source] as int];
                let _ = bank.reader_of@[source];
                let group = all[source] as int;
                assert(bank.streams@[group].wf());
            }
        }
        assert forall|source: int| 0 <= source < bank.count() implies #[trigger] bank.position(
            source,
        ) == 0 by {
            let _ = bank.group_of@[source];
            let _ = bank.reader_of@[source];
            let group = bank.group_of@[source] as int;
            assert(bank.streams@[group].wf());
        }
        assert(bank.physical() == representatives@.len()) by {
            if bank.physical() < representatives@.len() {
                let _ = representatives@[bank.physical() as int];
            }
        }
        assert forall|
            rankings: Seq<Seq<ExtendedPointId>>,
            failures: Seq<Option<OperationError>>,
        | #[trigger]
            representatives_lead(
                given,
                bank.groups(),
                representatives@,
                rankings,
                failures,
            ) implies forall|source: int|
            0 <= source < rankings.len() ==> bank.source_leads(
                source,
                #[trigger] rankings[source],
                failures[source],
            ) by {
            assert forall|source: int| 0 <= source < rankings.len() implies bank.source_leads(
                source,
                #[trigger] rankings[source],
                failures[source],
            ) by {
                let _ = all[source];
                let _ = representatives@[all[source] as int];
                let group = all[source] as int;
                assert(bank.streams@[group].wf());
                assert(leads_as(given[representatives@[group] as int], bank.streams@[group]));
            }
        }
        assert forall|rankings: Seq<Seq<ExtendedPointId>>| #[trigger]
            representatives_yield(
                given,
                bank.groups(),
                representatives@,
                rankings,
            ) implies bank.follows(rankings) by {
            assert forall|source: int| 0 <= source < rankings.len() implies bank.source_follows(
                source,
                #[trigger] rankings[source],
            ) by {
                let _ = all[source];
                let _ = bank.group_of@[source];
                let group = all[source] as int;
                let _ = representatives@[group];
                assert(bank.streams@[group].wf());
                assert(leads_as(given[representatives@[group] as int], bank.streams@[group]));
                assert(bank.streams@[group].leads(rankings[source], None));
            }
        }
    }
    bank
}

} // verus!
