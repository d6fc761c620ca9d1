//! A batching request coalescer and the one-shot resolution futures it
//! fulfills.
//!
//! Callers that want the value for a key create a [`DataLoaderFuture`] and
//! hand one handle of it to the coalescer. The coalescer admits futures into
//! an open batch, de-duplicating keys, until either `batch_size` distinct
//! keys have accumulated or the embedding runtime decides the batch window
//! has timed out; it then invokes the pluggable [`DataLoaderHandler`] once
//! with all pending keys and fans each key's result back out to every
//! subscribed future, waking the parties that were suspended on them.
//!
//! The coalescer itself is a sequential state machine: waiting, timers and
//! task wake-ups belong to the embedding runtime, which drives [`DataLoader`]
//! through [`DataLoader::register`] and [`DataLoader::batch_execute`] and
//! invokes the resumption hooks these hand back.

use vstd::prelude::*;
use vstd::pervasive::cloned;
use vstd::rwlock::RwLock;
use crate::spinlock::AnyValue;
use std::collections::HashMap;
use std::sync::Arc;

verus! {

/// Request keys are plain integers; correlation needs nothing more.
pub type ID = i32;

/// The state of one requested value: not yet available, available, failed
/// in the application's terms, or failed inside the machinery.
pub enum DataResult<T> {
    Ready(T),
    Internal(String),
    Error(String),
    Pending,
}

/// `b` is a faithful copy of `a`: the same variant, with an error message
/// equal character for character and a payload cloned from the original.
pub open spec fn cloned_result<T: Clone>(a: DataResult<T>, b: DataResult<T>) -> bool {
    match a {
        DataResult::Ready(x) => b matches DataResult::Ready(y) && cloned(x, y),
        DataResult::Internal(x) => b matches DataResult::Internal(y) && x@ == y@,
        DataResult::Error(x) => b matches DataResult::Error(y) && x@ == y@,
        DataResult::Pending => b is Pending,
    }
}

impl<T> DataResult<T> {
    /// Moves the state out, leaving `Pending` behind.
    pub fn take(&mut self) -> (r: DataResult<T>)
        ensures
            r == *old(self),
            *final(self) is Pending,
    {
        let mut out = DataResult::Pending;
        core::mem::swap(self, &mut out);
        out
    }

    /// Whether the value is still outstanding.
    pub fn is_pending(&self) -> (r: bool)
        ensures
            r == (*self is Pending),
    {
        match self {
            DataResult::Pending => true,
            _ => false,
        }
    }
}

impl<T: Clone> Clone for DataResult<T> {
    /// Copies the state: the same variant, message characters kept, the
    /// payload cloned.
    fn clone(&self) -> (r: Self)
        ensures
            cloned_result(*self, r),
    {
        match self {
            DataResult::Ready(t) => DataResult::Ready(t.clone()),
            DataResult::Internal(e) => DataResult::Internal(e.clone()),
            DataResult::Error(e) => DataResult::Error(e.clone()),
            DataResult::Pending => DataResult::Pending,
        }
    }
}

/// The shared cell of a resolution future: the result so far, and the hook
/// of a party suspended on it, if one is registered.
pub struct DataLoaderFutureShared<T, W> {
    result: DataResult<T>,
    waker: Option<W>,
}

impl<T, W> DataLoaderFutureShared<T, W> {
    /// One poll of the cell: a terminal result is taken out (leaving
    /// `Pending`, so a terminal state is observed exactly once); while still
    /// pending, the caller's hook is recorded for the fulfilling party to
    /// invoke. A machinery failure is reported as a fixed error message.
    fn poll_step(&mut self, w: W) -> (r: Option<Result<T, String>>)
        ensures
            final(self).result is Pending,
            old(self).result is Pending ==> r is None && final(self).waker == Some(w),
            !(old(self).result is Pending) ==> final(self).waker == old(self).waker,
            old(self).result matches DataResult::Ready(v) ==> r == Some(Ok::<T, String>(v)),
            old(self).result matches DataResult::Error(e) ==> r == Some(Err::<T, String>(e)),
            old(self).result matches DataResult::Internal(e) ==> r matches Some(res) && (
            res matches Err(msg) && msg@ == "Internal Error"@),
    {
        match self.result.take() {
            DataResult::Ready(v) => Some(Ok(v)),
            DataResult::Error(e) => Some(Err(e)),
            DataResult::Internal(_) => Some(Err("Internal Error".to_owned())),
            DataResult::Pending => {
                self.waker = Some(w);
                None
            },
        }
    }

    /// Stores the batch's result for this future and takes out the hook of
    /// the suspended party, for the caller to invoke.
    fn fulfill_step(&mut self, res: DataResult<T>) -> (w: Option<W>)
        ensures
            final(self).result == res,
            final(self).waker is None,
            w == old(self).waker,
    {
        self.result = res;
        self.waker.take()
    }
}

/// A one-shot resolution future for one key: a shared cell that starts
/// pending and is fulfilled by the coalescer when the batch containing the
/// key completes. Clones share the cell, so the coalescer's handle fulfills
/// what the caller's handle polls.
pub struct DataLoaderFuture<T, W> {
    id: ID,
    shared: Arc<RwLock<DataLoaderFutureShared<T, W>, AnyValue>>,
}

impl<T, W> DataLoaderFuture<T, W> {
    /// The key this future asks for.
    pub closed spec fn key(self) -> ID {
        self.id
    }

    /// The shared cell this handle polls or fulfills: handles whose `cell`
    /// agree observe one and the same result.
    pub closed spec fn cell(self) -> RwLock<DataLoaderFutureShared<T, W>, AnyValue> {
        *self.shared
    }

    /// Creates a pending future for `id`.
    pub fn new(id: ID) -> (r: DataLoaderFuture<T, W>)
        ensures
            r.key() == id,
    {
        DataLoaderFuture {
            id,
            shared: Arc::new(
                RwLock::new(
                    DataLoaderFutureShared { result: DataResult::Pending, waker: None },
                    Ghost(AnyValue),
                ),
            ),
        }
    }

    /// The key this future asks for.
    pub fn id(&self) -> (r: ID)
        ensures
            r == self.key(),
    {
        self.id
    }

    /// Locks the shared cell and polls it once, as
    /// [`DataLoaderFutureShared::poll_step`] describes: a terminal result is
    /// handed out exactly once; while pending, `w` is recorded and invoked
    /// later by whoever fulfills the future.
    pub fn poll(&self, w: W) -> Option<Result<T, String>> {
        let (mut shared, handle) = self.shared.acquire_write();
        let r = shared.poll_step(w);
        handle.release_write(shared);
        r
    }

    /// Locks the shared cell, stores `res` in it, and hands back the hook
    /// of the party suspended on this future, which the caller must now
    /// invoke.
    pub fn fulfill(&self, res: DataResult<T>) -> Option<W> {
        let (mut shared, handle) = self.shared.acquire_write();
        let r = shared.fulfill_step(res);
        handle.release_write(shared);
        r
    }
}

impl<T, W> Clone for DataLoaderFuture<T, W> {
    /// Another handle on the same shared cell, for the same key.
    fn clone(&self) -> (r: Self)
        ensures
            r.key() == self.key(),
            r.cell() == self.cell(),
    {
        DataLoaderFuture { id: self.id, shared: self.shared.clone() }
    }
}

/// The pluggable batch-fetch capability. Given the application context and
/// a map holding `Pending` for every key of the closing batch, an
/// implementation overwrites each entry with that key's result; entries it
/// leaves pending (or removes) are treated as a batch-wide failure for
/// their subscribers.
pub trait DataLoaderHandler<T, C> {
    fn batch_execute(&mut self, ctx: &C, results: &mut HashMap<ID, DataResult<T>>);
}

/// What [`DataLoader::register`] tells the embedding run-loop to do: arm the
/// batch timeout (the admitted key opened a fresh batch), and/or close the
/// batch now (the size threshold is reached).
pub struct AdmitOutcome {
    pub arm_timer: bool,
    pub trigger: bool,
}

/// `r` is what a finished batch delivers to a subscriber of `id`, given the
/// result map the handler produced: a copy of the handler's entry for the
/// key, or, when the handler left the key unresolved or dropped it, the
/// batch-wide failure message.
pub open spec fn resolved_outcome<T: Clone>(
    m: Map<ID, DataResult<T>>,
    id: ID,
    r: DataResult<T>,
) -> bool {
    if m.contains_key(id) && !(m[id] is Pending) {
        cloned_result(m[id], r)
    } else {
        r matches DataResult::Internal(e) && e@ == "batch handler left the key unresolved"@
    }
}

/// Chooses what a subscriber of `id` receives from the handler's result
/// map, as [`resolved_outcome`] states.
pub fn resolve_for<T: Clone>(results: &HashMap<ID, DataResult<T>>, id: ID) -> (r: DataResult<T>)
    ensures
        resolved_outcome(results@, id, r),
{
    match results.get(&id) {
        Some(entry) => {
            if entry.is_pending() {
                DataResult::Internal("batch handler left the key unresolved".to_owned())
            } else {
                entry.clone()
            }
        },
        None => DataResult::Internal("batch handler left the key unresolved".to_owned()),
    }
}

/// Any number of subscribers of one key observe the same resolved value:
/// whatever a finished batch delivers for `id`, each delivery is a copy of
/// the one entry the handler produced for that key — or all deliveries
/// carry the one shared failure message.
pub proof fn lemma_same_key_same_outcome<T: Clone>(
    m: Map<ID, DataResult<T>>,
    id: ID,
    r1: DataResult<T>,
    r2: DataResult<T>,
)
    requires
        resolved_outcome(m, id, r1),
        resolved_outcome(m, id, r2),
    ensures
        m.contains_key(id) && !(m[id] is Pending) ==> cloned_result(m[id], r1) && cloned_result(
            m[id],
            r2,
        ),
        !(m.contains_key(id) && !(m[id] is Pending)) ==> {
            &&& r1 matches DataResult::Internal(e1)
            &&& r2 matches DataResult::Internal(e2)
            &&& e1@ == e2@
        },
{
}

/// The batching coalescer: the open batch's key→result map, the futures
/// subscribed to those keys, the pluggable handler, and the size threshold
/// at which a batch closes without waiting for its timeout.
pub struct DataLoader<F: DataLoaderHandler<T, C>, C, T, W> {
    loader: F,
    results: HashMap<ID, DataResult<T>>,
    futures: Vec<DataLoaderFuture<T, W>>,
    batch_size: usize,
    phantom: core::marker::PhantomData<C>,
}

impl<F: DataLoaderHandler<T, C>, C, T: Clone, W> DataLoader<F, C, T, W> {
    /// The distinct keys of the open batch.
    pub closed spec fn pending_keys(self) -> Set<ID> {
        self.results@.dom()
    }

    /// The keys of the subscribed futures, in arrival order (one entry per
    /// registered future, so a key registered twice appears twice).
    pub closed spec fn subscribers(self) -> Seq<ID> {
        self.futures@.map_values(|f: DataLoaderFuture<T, W>| f.key())
    }

    /// The size threshold at which a batch closes immediately.
    pub closed spec fn batch_limit(self) -> int {
        self.batch_size as int
    }

    /// Well-formedness: the threshold is positive, the open batch never
    /// holds more distinct keys than the threshold, and every subscribed
    /// future's key is pending.
    pub closed spec fn wf(self) -> bool {
        &&& 1 <= self.batch_size
        &&& self.results@.dom().finite()
        &&& self.results@.dom().len() <= self.batch_size
        &&& forall|i: int|
            0 <= i < self.futures@.len() ==> self.results@.contains_key(
                (#[trigger] self.futures@[i]).key(),
            )
    }

    /// A coalescer with no open batch.
    pub fn new(loader: F, batch_size: usize) -> (r: DataLoader<F, C, T, W>)
        requires
            batch_size >= 1,
        ensures
            r.wf(),
            r.pending_keys() == Set::<ID>::empty(),
            r.pending_keys().finite(),
            r.pending_keys().len() <= r.batch_limit(),
            r.subscribers() == Seq::<ID>::empty(),
            r.batch_limit() == batch_size,
    {
        let r = DataLoader {
            loader,
            results: HashMap::new(),
            futures: Vec::new(),
            batch_size,
            phantom: core::marker::PhantomData,
        };
        proof {
            assert(r.subscribers() =~= Seq::<ID>::empty());
        }
        r
    }

    /// Number of futures subscribed to the open batch.
    pub fn pending_futures(&self) -> (r: usize)
        ensures
            r == self.subscribers().len(),
    {
        self.futures.len()
    }

    /// Registers one future with the open batch. The future subscribes to its
    /// key; a key not yet pending is added to the batch (a key seen before
    /// is de-duplicated: no state grows but the subscription). The outcome
    /// tells the run-loop to arm the batch timeout when this key opened a
    /// fresh batch, and to close the batch now when the number of distinct
    /// keys has reached the threshold.
    pub fn register(&mut self, future: DataLoaderFuture<T, W>) -> (r: AdmitOutcome)
        requires
            old(self).wf(),
            old(self).pending_keys().len() < old(self).batch_limit(),
        ensures
            final(self).wf(),
            final(self).batch_limit() == old(self).batch_limit(),
            final(self).pending_keys().finite(),
            final(self).pending_keys().len() <= final(self).batch_limit(),
            final(self).subscribers() == old(self).subscribers().push(future.key()),
            old(self).pending_keys().contains(future.key()) ==> {
                &&& final(self).pending_keys() == old(self).pending_keys()
                &&& !r.arm_timer
                &&& !r.trigger
            },
            !old(self).pending_keys().contains(future.key()) ==> {
                &&& final(self).pending_keys() == old(self).pending_keys().insert(future.key())
                &&& r.arm_timer == (old(self).pending_keys().len() == 0)
                &&& r.trigger == (old(self).pending_keys().len() + 1 == old(self).batch_limit())
            },
    {
        let id = future.id();
        let ghost old_subs = self.subscribers();
        self.futures.push(future);
        proof {
            assert(self.subscribers() =~= old_subs.push(id));
        }
        if self.results.contains_key(&id) {
            return AdmitOutcome { arm_timer: false, trigger: false };
        }
        self.results.insert(id, DataResult::Pending);
        let len = self.results.len();
        AdmitOutcome { arm_timer: len == 1, trigger: len == self.batch_size }
    }

    /// Closes the open batch: invokes the handler once with every pending
    /// key, delivers to each subscribed future the outcome for its key (as
    /// [`resolved_outcome`] states, so all subscribers of one key observe
    /// the same resolved value), clears the batch, and hands back the hooks
    /// of all parties that were suspended on the delivered futures, for the
    /// run-loop to invoke.
    pub fn batch_execute(&mut self, ctx: &C) -> (wakers: Vec<W>)
        requires
            old(self).wf(),
        ensures
            final(self).wf(),
            final(self).batch_limit() == old(self).batch_limit(),
            final(self).pending_keys() == Set::<ID>::empty(),
            final(self).pending_keys().finite(),
            final(self).pending_keys().len() == 0,
            final(self).subscribers() == Seq::<ID>::empty(),
    {
        self.loader.batch_execute(ctx, &mut self.results);
        let mut wakers: Vec<W> = Vec::new();
        while self.futures.len() > 0
            invariant
                1 <= self.batch_size,
                self.batch_size == old(self).batch_size,
            decreases self.futures@.len(),
        {
            let future = self.futures.pop().unwrap();
            let outcome = resolve_for(&self.results, future.id());
            if let Some(w) = future.fulfill(outcome) {
                wakers.push(w);
            }
        }
        self.results.clear();
        proof {
            assert(self.pending_keys() =~= Set::<ID>::empty());
            assert(self.subscribers() =~= Seq::<ID>::empty());
        }
        wakers
    }
}

} // verus!
