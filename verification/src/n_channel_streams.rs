//! Streams that can be stopped between pulls.

use crate::n_channel_exact::{can_stop, never_stops};
use crate::operation_error::{OperationError, OperationResult};
use crate::order::ExtendedPointId;
use crate::reciprocal_rank_fusion::types::ExactRrfStream;
use vstd::prelude::*;

verus! {

/// A stream that fails once it was stopped.
pub struct CancellableIdentityStream<S: ExactRrfStream, T: Fn() -> bool> {
    inner: Option<S>,
    stopped: T,
}

impl<S: ExactRrfStream, T: Fn() -> bool> CancellableIdentityStream<S, T> {
    #[verifier::type_invariant]
    closed spec fn wf(&self) -> bool {
        can_stop(self.stopped)
    }

    /// What the stream will still yield, where it is never stopped.
    pub closed spec fn remaining(&self) -> Option<Seq<ExtendedPointId>> {
        match self.inner {
            Some(inner) => if never_stops(self.stopped) {
                inner.rest()
            } else {
                None
            },
            None => None,
        }
    }

    /// Whether the stream is stopped before its next pull.
    pub closed spec fn is_stopped(&self) -> bool {
        forall|answer: bool| #[trigger] self.stopped.ensures((), answer) ==> answer
    }

    /// What the stream will still yield before it fails: nothing where it is stopped, and
    /// what the inner stream yields where it is never stopped.
    pub closed spec fn broken(&self) -> Option<(Seq<ExtendedPointId>, OperationError)> {
        if self.is_stopped() {
            Some((Seq::empty(), OperationError::Cancelled))
        } else {
            match self.inner {
                Some(inner) => if never_stops(self.stopped) {
                    inner.failing()
                } else {
                    None
                },
                None => None,
            }
        }
    }

    /// A stream that asks whether it was stopped before every pull.
    pub fn new(inner: S, stopped: T) -> (stream: CancellableIdentityStream<S, T>)
        requires
            can_stop(stopped),
        ensures
            never_stops(stopped) ==> stream.remaining() == inner.rest(),
            (forall|answer: bool| #[trigger] stopped.ensures((), answer) ==> answer)
                ==> stream.is_stopped(),
            stream.is_stopped() ==> stream.broken() == Some(
                (Seq::<ExtendedPointId>::empty(), OperationError::Cancelled),
            ),
            never_stops(stopped) && !stream.is_stopped() ==> stream.broken() == inner.failing(),
    {
        CancellableIdentityStream { inner: Some(inner), stopped }
    }
}

impl<S: ExactRrfStream, T: Fn() -> bool> ExactRrfStream for CancellableIdentityStream<S, T> {
    open spec fn rest(&self) -> Option<Seq<ExtendedPointId>> {
        self.remaining()
    }

    open spec fn failing(&self) -> Option<(Seq<ExtendedPointId>, OperationError)> {
        self.broken()
    }

    fn next(&mut self) -> (result: OperationResult<Option<ExtendedPointId>>)
        ensures
            old(self).is_stopped() ==> result == Err::<Option<ExtendedPointId>, OperationError>(
                OperationError::Cancelled,
            ),
    {
        proof {
            use_type_invariant(&*self);
        }
        let stopped = &self.stopped;
        if stopped() {
            return Err(OperationError::Cancelled);
        }
        let mut taken: Option<S> = None;
        std::mem::swap(&mut self.inner, &mut taken);
        match taken {
            Some(inner) => {
                let mut inner = inner;
                let result = inner.next();
                self.inner = Some(inner);
                result
            },
            None => Ok(None),
        }
    }
}

} // verus!
