//! Which indexes a sparse cursor can be opened on, and what its failures mean.

use crate::dense_certificate::ScoredPointOffset;
use crate::operation_error::{OperationError, OperationResult};
use crate::segment_search::{OffsetList, PointCursor};
use vstd::prelude::*;

verus! {

/// The kinds of vector indexes.
#[derive(Clone, Copy, Debug, PartialEq, Eq, Structural)]
pub enum VectorIndexKind {
    Plain,
    Hnsw,
    SparseRam,
    SparseCompressedImmutableRamF32,
    SparseCompressedImmutableRamF16,
    SparseCompressedImmutableRamU8,
    SparseCompressedMmapF32,
    SparseCompressedMmapF16,
    SparseCompressedMmapU8,
}

/// Whether an index holds sparse vectors.
pub open spec fn is_sparse_kind(kind: VectorIndexKind) -> bool {
    !(kind is Plain) && !(kind is Hnsw)
}

/// Lets a sparse cursor be opened on indexes of sparse vectors only.
pub fn check_sparse_index(kind: VectorIndexKind) -> (result: OperationResult<()>)
    ensures
        is_sparse_kind(kind) ==> result == Ok::<(), OperationError>(()),
        !is_sparse_kind(kind) ==> result == Err::<(), OperationError>(OperationError::WrongSparse),
{
    match kind {
        VectorIndexKind::Plain => Err(OperationError::WrongSparse),
        VectorIndexKind::Hnsw => Err(OperationError::WrongSparse),
        VectorIndexKind::SparseRam => Ok(()),
        VectorIndexKind::SparseCompressedImmutableRamF32 => Ok(()),
        VectorIndexKind::SparseCompressedImmutableRamF16 => Ok(()),
        VectorIndexKind::SparseCompressedImmutableRamU8 => Ok(()),
        VectorIndexKind::SparseCompressedMmapF32 => Ok(()),
        VectorIndexKind::SparseCompressedMmapF16 => Ok(()),
        VectorIndexKind::SparseCompressedMmapU8 => Ok(()),
    }
}

/// How a sparse cursor fails.
#[derive(Clone, Debug, PartialEq, Eq)]
pub enum NativeSparseCursorError {
    Cancelled,
    ReaderFailure(String),
    CertificateViolation(String),
}

/// What the failure of an exact cursor means: it was cancelled, or its storage is
/// inconsistent.
pub open spec fn meaning_of(error: NativeSparseCursorError) -> OperationError {
    match error {
        NativeSparseCursorError::Cancelled => OperationError::Cancelled,
        NativeSparseCursorError::ReaderFailure(description) => OperationError::CorruptStorage {
            description,
        },
        NativeSparseCursorError::CertificateViolation(description) => {
            OperationError::CorruptStorage { description }
        },
    }
}

/// What the failure of an exact cursor means.
pub fn exact_cursor_error(error: NativeSparseCursorError) -> (result: OperationError)
    ensures
        result == meaning_of(error),
{
    match error {
        NativeSparseCursorError::Cancelled => OperationError::Cancelled,
        NativeSparseCursorError::ReaderFailure(description) => OperationError::CorruptStorage {
            description,
        },
        NativeSparseCursorError::CertificateViolation(description) => {
            OperationError::CorruptStorage { description }
        },
    }
}

/// What pulling an exact cursor returns: its point or end, or what its failure
/// means.
pub fn cursor_result(
    pulled: Result<Option<ScoredPointOffset>, NativeSparseCursorError>,
) -> (result: OperationResult<Option<ScoredPointOffset>>)
    ensures
        result == (match pulled {
            Ok(point) => Ok::<Option<ScoredPointOffset>, OperationError>(point),
            Err(error) => Err::<Option<ScoredPointOffset>, OperationError>(meaning_of(error)),
        }),
{
    match pulled {
        Ok(point) => Ok(point),
        Err(error) => Err(exact_cursor_error(error)),
    }
}

/// A cursor over the points of a sparse index in exact order. It yields finitely many.
pub trait ExactSparseCursor {
    /// What the cursor will still yield, where that is known and never fails.
    open spec fn remaining(&self) -> Option<Seq<ScoredPointOffset>> {
        None
    }

    /// What the cursor will still yield before it fails, and how it fails, where that is
    /// known.
    open spec fn breaking(&self) -> Option<(Seq<ScoredPointOffset>, NativeSparseCursorError)> {
        None
    }

    /// A bound of how many points the cursor will still yield.
    spec fn remains(&self) -> nat;

    /// The next point; `None` at the end.
    fn pull(&mut self) -> (result: Result<Option<ScoredPointOffset>, NativeSparseCursorError>)
        ensures
            final(self).remains() <= old(self).remains(),
            result matches Ok(Some(_)) ==> final(self).remains() < old(self).remains(),
            old(self).remaining() is None ==> (old(self).breaking() matches Some((points, error))
                ==> if points.len() == 0 {
                result == Err::<Option<ScoredPointOffset>, NativeSparseCursorError>(error)
            } else {
                &&& result == Ok::<Option<ScoredPointOffset>, NativeSparseCursorError>(
                    Some(points[0]),
                )
                &&& final(self).remaining() is None
                &&& final(self).breaking() == Some((points.drop_first(), error))
            }),
            old(self).remaining() matches Some(points) ==> if points.len() == 0 {
                result == Ok::<Option<ScoredPointOffset>, NativeSparseCursorError>(None)
                    && final(self).remaining() == Some(points)
            } else {
                result == Ok::<Option<ScoredPointOffset>, NativeSparseCursorError>(Some(points[0]))
                    && final(self).remaining() == Some(points.drop_first())
            },
    ;
}

impl ExactSparseCursor for OffsetList {
    open spec fn remaining(&self) -> Option<Seq<ScoredPointOffset>> {
        self.rest()
    }

    open spec fn remains(&self) -> nat {
        PointCursor::remains(self)
    }

    fn pull(&mut self) -> (result: Result<Option<ScoredPointOffset>, NativeSparseCursorError>) {
        let ghost rest = self.rest();
        assert(rest matches Some(points) ==> PointCursor::leads(&*self, points, None));
        match self.next() {
            Ok(point) => Ok(point),
            Err(_) => Err(NativeSparseCursorError::Cancelled),
        }
    }
}

/// An exact cursor on an index of sparse vectors, whatever its encoding.
pub struct ExactSparseIndexCursor<C> {
    inner: C,
}

/// A cursor on an index of sparse vectors that chooses its own plan.
pub type NativeSparseIndexCursor<C> = ExactSparseIndexCursor<C>;

impl<C: ExactSparseCursor> ExactSparseIndexCursor<C> {
    /// The cursor that is pulled.
    pub closed spec fn inner(&self) -> C {
        self.inner
    }

    /// Opens a cursor on an index of sparse vectors; other indexes have none.
    pub fn open<K: Fn() -> OperationResult<C>>(kind: VectorIndexKind, make: &K) -> (result:
        OperationResult<ExactSparseIndexCursor<C>>)
        requires
            make.requires(()),
        ensures
            !is_sparse_kind(kind) ==> result == Err::<ExactSparseIndexCursor<C>, OperationError>(
                OperationError::WrongSparse,
            ),
            is_sparse_kind(kind) ==> exists|made: OperationResult<C>|
                {
                    &&& #[trigger] make.ensures((), made)
                    &&& match made {
                        Ok(inner) => result matches Ok(cursor) && cursor.inner() == inner,
                        Err(error) => result == Err::<ExactSparseIndexCursor<C>, OperationError>(
                            error,
                        ),
                    }
                },
    {
        match check_sparse_index(kind) {
            Ok(_) => {},
            Err(error) => {
                return Err(error);
            },
        }
        let made = make();
        assert(make.ensures((), made));
        match made {
            Ok(inner) => Ok(ExactSparseIndexCursor { inner }),
            Err(error) => Err(error),
        }
    }

    /// The next point, or what the failure of the cursor means.
    pub fn next_result(&mut self) -> (result: OperationResult<Option<ScoredPointOffset>>)
        ensures
            old(self).inner().remaining() is None ==> (old(self).inner().breaking() matches Some(
                (points, error),
            ) ==> if points.len() == 0 {
                result == Err::<Option<ScoredPointOffset>, OperationError>(meaning_of(error))
            } else {
                &&& result == Ok::<Option<ScoredPointOffset>, OperationError>(Some(points[0]))
                &&& final(self).inner().remaining() is None
                &&& final(self).inner().breaking() == Some((points.drop_first(), error))
            }),
            old(self).inner().remaining() matches Some(points) ==> if points.len() == 0 {
                result == Ok::<Option<ScoredPointOffset>, OperationError>(None)
                    && final(self).inner().remaining() == Some(points)
            } else {
                result == Ok::<Option<ScoredPointOffset>, OperationError>(Some(points[0]))
                    && final(self).inner().remaining() == Some(points.drop_first())
            },
            result matches Err(error) ==> error is Cancelled || error is CorruptStorage,
            final(self).inner().remains() <= old(self).inner().remains(),
            result matches Ok(Some(_)) ==> final(self).inner().remains()
                < old(self).inner().remains(),
    {
        cursor_result(self.inner.pull())
    }

    /// The next points, at most the given number. A failure returns none of them.
    pub fn next_batch(&mut self, max_results: usize) -> (result: OperationResult<
        Vec<ScoredPointOffset>,
    >)
        ensures
            old(self).inner().remaining() matches Some(points) ==> {
                let count = if max_results <= points.len() {
                    max_results as int
                } else {
                    points.len() as int
                };
                &&& result matches Ok(batch)
                &&& batch@ == points.take(count)
                &&& final(self).inner().remaining() == Some(points.skip(count))
            },
            old(self).inner().remaining() is None ==> (old(self).inner().breaking() matches Some(
                (points, error),
            ) ==> if max_results <= points.len() {
                &&& result matches Ok(batch)
                &&& batch@ == points.take(max_results as int)
                &&& final(self).inner().remaining() is None
                &&& final(self).inner().breaking() == Some(
                    (points.skip(max_results as int), error),
                )
            } else {
                result == Err::<Vec<ScoredPointOffset>, OperationError>(meaning_of(error))
            }),
            result matches Ok(batch) ==> batch@.len() <= max_results,
            result matches Err(error) ==> error is Cancelled || error is CorruptStorage,
    {
        let mut batch: Vec<ScoredPointOffset> = Vec::new();
        let mut ended = false;
        let ghost given = self.inner.remaining();
        let ghost broken = self.inner.breaking();
        proof {
            if broken is Some {
                let (points, _) = broken.unwrap();
                assert(points.skip(0) =~= points);
                assert(points.take(0) =~= batch@);
            }
        }
        while batch.len() < max_results && !ended
            invariant
                batch@.len() <= max_results,
                given == old(self).inner().remaining(),
                broken == old(self).inner().breaking(),
                given is None ==> (broken matches Some((points, error)) ==> {
                    &&& batch@.len() <= points.len()
                    &&& batch@ == points.take(batch@.len() as int)
                    &&& self.inner.remaining() is None
                    &&& self.inner.breaking() == Some((points.skip(batch@.len() as int), error))
                    &&& !ended
                }),
                given matches Some(points) ==> {
                    &&& batch@.len() <= points.len()
                    &&& batch@ == points.take(batch@.len() as int)
                    &&& self.inner.remaining() == Some(points.skip(batch@.len() as int))
                    &&& ended ==> batch@.len() == points.len()
                },
            decreases max_results - batch@.len(), (if ended { 0int } else { 1int }),
        {
            let ghost before = batch@;
            match self.next_result() {
                Ok(Some(point)) => {
                    batch.push(point);
                    proof {
                        if given is None && broken is Some {
                            let (points, _) = broken.unwrap();
                            assert(points.skip(before.len() as int)[0] == point);
                            assert(batch@ =~= points.take(batch@.len() as int));
                            assert(points.skip(before.len() as int).drop_first() =~= points.skip(
                                batch@.len() as int,
                            ));
                        }
                        if given is Some {
                            let points = given.unwrap();
                            assert(points.skip(before.len() as int)[0] == point);
                            assert(batch@ =~= points.take(batch@.len() as int));
                            assert(points.skip(before.len() as int).drop_first() =~= points.skip(
                                batch@.len() as int,
                            ));
                        }
                    }
                },
                Ok(None) => {
                    ended = true;
                },
                Err(error) => {
                    return Err(error);
                },
            }
        }
        Ok(batch)
    }
}

impl<C: ExactSparseCursor> PointCursor for ExactSparseIndexCursor<C> {
    open spec fn leads(
        &self,
        points: Seq<ScoredPointOffset>,
        failure: Option<OperationError>,
    ) -> bool {
        match failure {
            None => self.inner().remaining() == Some(points),
            Some(error) => self.inner().remaining() is None && (
            self.inner().breaking() matches Some((first, reason)) && first == points && meaning_of(
                reason,
            ) == error),
        }
    }

    open spec fn remains(&self) -> nat {
        self.inner().remains()
    }

    fn next(&mut self) -> (result: OperationResult<Option<ScoredPointOffset>>) {
        self.next_result()
    }
}

/// The indexes of sparse vectors are the one in memory and the compressed ones, of every
/// storage and weight.
pub proof fn law_sparse_kinds(kind: VectorIndexKind)
    ensures
        is_sparse_kind(kind) <==> kind == VectorIndexKind::SparseRam || kind
            == VectorIndexKind::SparseCompressedImmutableRamF32 || kind
            == VectorIndexKind::SparseCompressedImmutableRamF16 || kind
            == VectorIndexKind::SparseCompressedImmutableRamU8 || kind
            == VectorIndexKind::SparseCompressedMmapF32 || kind
            == VectorIndexKind::SparseCompressedMmapF16 || kind
            == VectorIndexKind::SparseCompressedMmapU8,
{
}

/// A cursor that was cancelled is told from one whose storage is inconsistent, and the
/// description of the inconsistency is kept.
pub proof fn law_failures_keep_their_meaning(
    left: NativeSparseCursorError,
    right: NativeSparseCursorError,
    description: String,
)
    ensures
        meaning_of(left) is Cancelled <==> left is Cancelled,
        meaning_of(NativeSparseCursorError::ReaderFailure(description)) == (
        OperationError::CorruptStorage { description }),
        meaning_of(NativeSparseCursorError::CertificateViolation(description)) == (
        OperationError::CorruptStorage { description }),
        left is ReaderFailure && right is ReaderFailure && left != right ==> meaning_of(left)
            != meaning_of(right),
{
}

} // verus!
