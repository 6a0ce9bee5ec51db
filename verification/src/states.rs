//! The shared transaction-layer stack.
//!
//! Layers are append-only: closing or reverting a transaction never removes a
//! layer, it only flips its state, so every layer index ever recorded in a
//! [`crate::History`] stays valid for the whole session.

use vstd::prelude::*;

verus! {

/// State of a transactional layer.
#[derive(Clone, Copy, PartialEq, Eq, Structural, Debug)]
pub enum TransactionState {
    /// Data is under change and can still be dropped.
    Pending,
    /// Same as pending, but additionally marks the start of a transaction.
    TxPending,
    /// Data pointing to this layer is invisible and can be removed.
    Dropped,
}

/// A value written at a live layer is still visible.
pub open spec fn is_live(s: TransactionState) -> bool {
    s is Pending || s is TxPending
}

/// The greatest index in `[committed, from)` whose layer is `TxPending`, or
/// `committed` when there is none: where the transaction scope enclosing
/// layer `from` begins.
pub open spec fn spec_tx_start(layers: Seq<TransactionState>, committed: int, from: int) -> int
    decreases from - committed,
{
    if from <= committed {
        committed
    } else if layers[from - 1] is TxPending {
        from - 1
    } else {
        spec_tx_start(layers, committed, from - 1)
    }
}

/// Some layer in `[committed, from)` is `TxPending`.
pub open spec fn has_tx(layers: Seq<TransactionState>, committed: int, from: int) -> bool {
    exists|j: int| committed <= j < from && layers[j] is TxPending
}

/// `spec_tx_start` returns the greatest `TxPending` index below `from`, and
/// the committed boundary when there is none.
pub proof fn lemma_tx_start(layers: Seq<TransactionState>, committed: int, from: int)
    requires
        committed <= from,
    ensures
        committed <= spec_tx_start(layers, committed, from) <= from,
        committed < from ==> spec_tx_start(layers, committed, from) < from,
        forall|j: int|
            spec_tx_start(layers, committed, from) < j < from ==> !(layers[j] is TxPending),
        has_tx(layers, committed, from) ==> layers[spec_tx_start(layers, committed, from)]
            is TxPending,
        !has_tx(layers, committed, from) ==> spec_tx_start(layers, committed, from) == committed,
    decreases from - committed,
{
    if from <= committed {
    } else if layers[from - 1] is TxPending {
    } else {
        lemma_tx_start(layers, committed, from - 1);
        assert forall|j: int| committed <= j < from && layers[j] is TxPending implies committed
            <= j < from - 1 && layers[j] is TxPending by {
            assert(j != from - 1);
        }
    }
}

/// If no layer in `[mid, from)` is `TxPending`, the scope start computed from
/// `from` equals the one computed from `mid`.
pub proof fn lemma_tx_start_stable(
    layers: Seq<TransactionState>,
    committed: int,
    mid: int,
    from: int,
)
    requires
        committed <= mid <= from,
        forall|j: int| mid <= j < from ==> !(layers[j] is TxPending),
    ensures
        spec_tx_start(layers, committed, from) == spec_tx_start(layers, committed, mid),
    decreases from - mid,
{
    if from > mid {
        lemma_tx_start_stable(layers, committed, mid, from - 1);
    }
}

/// The layer sequence with every layer from `lo` on flipped to `Dropped`.
pub open spec fn mark_dropped_from(layers: Seq<TransactionState>, lo: int) -> Seq<
    TransactionState,
> {
    Seq::new(layers.len(), |i: int| if i >= lo {
        TransactionState::Dropped
    } else {
        layers[i]
    })
}

/// The shared stack: an indexed sequence of layer states to query values
/// against, and a committed boundary below which no transaction layer can be
/// dropped.  A committed boundary of `0` means nothing is committed.  There is
/// an implicit pending state at the top: every operation that closes or opens
/// work appends a fresh live layer.
#[derive(Clone, Debug)]
pub struct States(Vec<TransactionState>, usize);

impl States {
    /// The layer sequence.
    pub closed spec fn layers(self) -> Seq<TransactionState> {
        self.0@
    }

    /// The committed boundary.
    pub closed spec fn committed_ix(self) -> int {
        self.1 as int
    }

    /// Invariant: at least one layer, the committed boundary in range, and the
    /// newest layer live, so a write always has a live layer to target.
    pub open spec fn inv(self) -> bool {
        &&& self.layers().len() > 0
        &&& 0 <= self.committed_ix() <= self.layers().len()
        &&& is_live(self.layers().last())
    }

    /// Read-only view of the layer states: enough information to query
    /// historied data.
    pub fn as_ref(&self) -> (r: &[TransactionState])
        ensures
            r@ == self.layers(),
    {
        self.0.as_slice()
    }

    /// View of the layer states paired with the committed boundary: enough
    /// information to update historied data.
    pub fn as_ref_mut(&self) -> (r: (&[TransactionState], usize))
        ensures
            r.0@ == self.layers(),
            r.1 as int == self.committed_ix(),
    {
        (self.0.as_slice(), self.1)
    }

    /// The committed boundary, needed to manage commit and garbage collection.
    pub fn committed(&self) -> (r: usize)
        ensures
            r as int == self.committed_ix(),
    {
        self.1
    }

    /// Build an arbitrary stack; construction-only helper for validation.  The
    /// result satisfies `inv` only if the arguments do.
    pub fn test_vector(test_states: Vec<TransactionState>, committed: usize) -> (r: Self)
        ensures
            r.layers() == test_states@,
            r.committed_ix() == committed as int,
    {
        States(test_states, committed)
    }

    /// Roll the committed boundary back to an earlier value, then discard all
    /// prospective layers.  Correct only if no eager pruning removed entries at
    /// or above `old_committed`; that is a documented caller obligation, not a
    /// checked invariant.
    pub fn unchecked_rollback_committed(&mut self, old_committed: usize)
        requires
            old(self).inv(),
            old_committed <= old(self).layers().len(),
        ensures
            final(self).inv(),
            final(self).committed_ix() == old_committed as int,
            final(self).layers() == mark_dropped_from(
                old(self).layers(),
                old_committed as int,
            ).push(TransactionState::Pending),
    {
        self.1 = old_committed;
        self.discard_prospective();
    }

    /// Discard prospective changes: flip every layer at or above the committed
    /// boundary to `Dropped`, then append a fresh live layer.
    pub fn discard_prospective(&mut self)
        requires
            old(self).inv(),
        ensures
            final(self).inv(),
            final(self).committed_ix() == old(self).committed_ix(),
            final(self).layers() == mark_dropped_from(
                old(self).layers(),
                old(self).committed_ix(),
            ).push(TransactionState::Pending),
    {
        let n = self.0.len();
        let mut i: usize = self.1;
        while i < n
            invariant
                self.1 == old(self).1,
                old(self).1 <= i <= n,
                n == self.0@.len(),
                self.0@.len() == old(self).0@.len(),
                forall|j: int|
                    0 <= j < n ==> self.0@[j] == (if old(self).1 <= j < i {
                        TransactionState::Dropped
                    } else {
                        old(self).0@[j]
                    }),
            decreases n - i,
        {
            self.0[i] = TransactionState::Dropped;
            i += 1;
        }
        self.0.push(TransactionState::Pending);
        proof {
            assert(self.layers() =~= mark_dropped_from(
                old(self).layers(),
                old(self).committed_ix(),
            ).push(TransactionState::Pending));
        }
    }

    /// Commit prospective changes: everything written so far becomes durable.
    pub fn commit_prospective(&mut self)
        requires
            old(self).inv(),
        ensures
            final(self).inv(),
            final(self).committed_ix() == old(self).layers().len(),
            final(self).layers() == old(self).layers().push(TransactionState::Pending),
    {
        self.1 = self.0.len();
        self.0.push(TransactionState::Pending);
    }

    /// Open a nested transaction frame: subsequent writes target the new top
    /// layer until the frame closes.
    pub fn start_transaction(&mut self)
        requires
            old(self).inv(),
        ensures
            final(self).inv(),
            final(self).committed_ix() == old(self).committed_ix(),
            final(self).layers() == old(self).layers().push(TransactionState::TxPending),
    {
        self.0.push(TransactionState::TxPending);
    }

    /// Discard a transaction frame: scanning down from the top, flip every
    /// live layer to `Dropped` up to and including the nearest `TxPending`
    /// (or down to the committed boundary when there is none), then append a
    /// fresh live layer.
    pub fn discard_transaction(&mut self)
        requires
            old(self).inv(),
        ensures
            final(self).inv(),
            final(self).committed_ix() == old(self).committed_ix(),
            final(self).layers() == mark_dropped_from(
                old(self).layers(),
                spec_tx_start(
                    old(self).layers(),
                    old(self).committed_ix(),
                    old(self).layers().len() as int,
                ),
            ).push(TransactionState::Pending),
    {
        let n = self.0.len();
        let mut i: usize = n;
        let mut done: bool = false;
        while i > self.1 && !done
            invariant
                self.1 == old(self).1,
                old(self).1 <= i <= n,
                done ==> i < n,
                n == self.0@.len(),
                self.0@.len() == old(self).0@.len(),
                forall|j: int| 0 <= j < i ==> self.0@[j] == old(self).0@[j],
                forall|j: int| i <= j < n ==> self.0@[j] is Dropped,
                !done ==> forall|j: int| i <= j < n ==> !(old(self).0@[j] is TxPending),
                done ==> old(self).0@[i as int] is TxPending && forall|j: int|
                    i < j < n ==> !(old(self).0@[j] is TxPending),
            decreases i,
        {
            i -= 1;
            match self.0[i] {
                TransactionState::Dropped => {},
                TransactionState::Pending => {
                    self.0[i] = TransactionState::Dropped;
                },
                TransactionState::TxPending => {
                    self.0[i] = TransactionState::Dropped;
                    done = true;
                },
            }
        }
        proof {
            let s = old(self).layers();
            let c = old(self).committed_ix();
            lemma_tx_start(s, c, n as int);
            if done {
                assert(has_tx(s, c, n as int));
                let t = spec_tx_start(s, c, n as int);
                assert(t == i as int) by {
                    if t < i as int {
                        assert(!(s[i as int] is TxPending));
                    }
                    if t > i as int {
                        assert(c < n as int);
                        assert(!(s[t] is TxPending));
                    }
                }
            } else {
                assert(i == self.1);
                assert(!has_tx(s, c, n as int));
            }
            assert(self.layers() =~= mark_dropped_from(s, spec_tx_start(s, c, n as int)));
        }
        self.0.push(TransactionState::Pending);
    }

    /// Commit a transaction frame: flip the nearest `TxPending` above the
    /// committed boundary to `Pending`, folding the frame into its enclosing
    /// scope, then append a fresh live layer.  When no frame is open nothing
    /// is folded.
    pub fn commit_transaction(&mut self)
        requires
            old(self).inv(),
        ensures
            final(self).inv(),
            final(self).committed_ix() == old(self).committed_ix(),
            final(self).layers() == (if has_tx(
                old(self).layers(),
                old(self).committed_ix(),
                old(self).layers().len() as int,
            ) {
                old(self).layers().update(
                    spec_tx_start(
                        old(self).layers(),
                        old(self).committed_ix(),
                        old(self).layers().len() as int,
                    ),
                    TransactionState::Pending,
                )
            } else {
                old(self).layers()
            }).push(TransactionState::Pending),
    {
        let n = self.0.len();
        let mut i: usize = n;
        let mut done: bool = false;
        while i > self.1 && !done
            invariant
                self.1 == old(self).1,
                old(self).1 <= i <= n,
                done ==> i < n,
                n == self.0@.len(),
                self.0@.len() == old(self).0@.len(),
                !done ==> self.0@ == old(self).0@ && forall|j: int|
                    i <= j < n ==> !(old(self).0@[j] is TxPending),
                done ==> old(self).0@[i as int] is TxPending && self.0@ == old(self).0@.update(
                    i as int,
                    TransactionState::Pending,
                ) && forall|j: int| i < j < n ==> !(old(self).0@[j] is TxPending),
            decreases i,
        {
            i -= 1;
            match self.0[i] {
                TransactionState::Dropped => {},
                TransactionState::Pending => {},
                TransactionState::TxPending => {
                    self.0[i] = TransactionState::Pending;
                    done = true;
                },
            }
        }
        proof {
            let s = old(self).layers();
            let c = old(self).committed_ix();
            lemma_tx_start(s, c, n as int);
            if done {
                assert(has_tx(s, c, n as int));
                let t = spec_tx_start(s, c, n as int);
                assert(t == i as int) by {
                    if t < i as int {
                        assert(!(s[i as int] is TxPending));
                    }
                    if t > i as int {
                        assert(c < n as int);
                        assert(!(s[t] is TxPending));
                    }
                }
            } else {
                assert(i == self.1);
                assert(!has_tx(s, c, n as int));
            }
        }
        self.0.push(TransactionState::Pending);
    }
}

impl Default for States {
    /// A fresh stack: one live layer, nothing committed.
    fn default() -> (r: Self)
        ensures
            r.inv(),
            r.layers() == seq![TransactionState::Pending],
            r.committed_ix() == 0,
    {
        let mut v: Vec<TransactionState> = Vec::new();
        v.push(TransactionState::Pending);
        let r = States(v, 0);
        proof {
            assert(r.layers() =~= seq![TransactionState::Pending]);
        }
        r
    }
}

/// The index where the transaction scope enclosing layer `from` begins: the
/// nearest `TxPending` layer strictly below `from` and at or above the
/// committed boundary, or the committed boundary when there is none.  Used to
/// decide whether two entries of one history belong to the same open scope.
pub fn find_previous_tx_start(states: (&[TransactionState], usize), from: usize) -> (r: usize)
    requires
        from <= states.0@.len(),
    ensures
        r as int == spec_tx_start(states.0@, states.1 as int, from as int),
{
    let mut i: usize = from;
    while i > states.1
        invariant
            i <= from,
            from <= states.0@.len(),
            spec_tx_start(states.0@, states.1 as int, from as int) == spec_tx_start(
                states.0@,
                states.1 as int,
                i as int,
            ),
        decreases i,
    {
        i -= 1;
        if states.0[i] == TransactionState::TxPending {
            return i;
        }
    }
    states.1
}

} // verus!
