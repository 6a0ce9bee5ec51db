//! Cross-method laws of the version history.
//!
//! These connect the contracts of [`crate::History`] and [`crate::States`]:
//! what a key shows after a frame is discarded or committed follows from what
//! the write and read paths each promise about `newest_live_below`.

use crate::history::{
    newest_live_at, newest_live_below, scope_anchor, vis_below, visible, wf, HistoriedValue,
};
use crate::states::{is_live, spec_tx_start, TransactionState};
use vstd::prelude::*;

verus! {

/// A newest-to-oldest scan resolves only on whether each entry qualifies:
/// two stack views under which every entry of `h` qualifies alike resolve to
/// the same entry.
pub proof fn lemma_scan_equiv<V>(
    h: Seq<HistoriedValue<V>>,
    s1: Seq<TransactionState>,
    s2: Seq<TransactionState>,
    t1: int,
    t2: int,
    i: int,
)
    requires
        0 <= i <= h.len(),
        forall|p: int|
            0 <= p < h.len() ==> (((#[trigger] h[p].index) < t1 && is_live(
                s1[h[p].index as int],
            )) <==> (h[p].index < t2 && is_live(s2[h[p].index as int]))),
    ensures
        newest_live_at(h, s1, t1, i) == newest_live_at(h, s2, t2, i),
    decreases i,
{
    if i > 0 {
        lemma_scan_equiv(h, s1, s2, t1, t2, i - 1);
    }
}

/// Stack operations that only touch layers at or above `t` — opening,
/// folding or dropping frames nested in the one opened at `t`, or appending
/// fresh layers — leave the view below `t` unchanged for every key.
pub proof fn lemma_view_below_frame_stable<V>(
    h: Seq<HistoriedValue<V>>,
    s1: Seq<TransactionState>,
    s2: Seq<TransactionState>,
    t: int,
)
    requires
        forall|i: int| 0 <= i < t ==> s1[i] == s2[i],
    ensures
        newest_live_below(h, s1, t) == newest_live_below(h, s2, t),
        vis_below(h, s1, t) == vis_below(h, s2, t),
{
    lemma_scan_equiv(h, s1, s2, t, t, h.len() as int);
}

/// The scope anchor of any live layer of an open frame lies at or above the
/// frame's start: what `set` preserves below the anchor is in particular
/// preserved below the frame.
pub proof fn lemma_anchor_within_frame(
    s: Seq<TransactionState>,
    c: int,
    t: int,
    l: int,
)
    requires
        0 <= c <= t <= l < s.len(),
        s[t] is TxPending,
    ensures
        t <= scope_anchor(s, c, l),
{
    if !(s[l] is TxPending) {
        crate::states::lemma_tx_start(s, c, l);
        if spec_tx_start(s, c, l) < t {
            assert(!(s[t] is TxPending));
        }
    }
}

/// Rollback law: after a frame is discarded, exactly the value that was
/// visible just before the matching `start_transaction` is visible again.
///
/// `h0` and `s0` are a key's history and the stack just before the frame
/// opened at layer `t == s0.len()`.  `h1` and `s1` are the history and the
/// stack at the moment of the discard: the stack still agrees with `s0` below
/// `t`, and the writes made in between kept the view below `t` intact —
/// which is exactly what `set`'s contract guarantees for every write made
/// while the frame (or any frame nested in it) was the innermost open scope.
/// `s2` is any stack after the discard: layers below `t` untouched, every
/// layer the history could reference from `t` on dead.  Then `get` resolves
/// to the pre-frame value.
pub proof fn lemma_rollback<V>(
    h0: Seq<HistoriedValue<V>>,
    s0: Seq<TransactionState>,
    h1: Seq<HistoriedValue<V>>,
    s1: Seq<TransactionState>,
    s2: Seq<TransactionState>,
    t: int,
)
    requires
        wf(h0, s0.len() as int),
        t == s0.len(),
        wf(h1, s1.len() as int),
        t <= s1.len(),
        forall|i: int| 0 <= i < t ==> s1[i] == s0[i],
        vis_below(h1, s1, t) == vis_below(h0, s0, t),
        s1.len() <= s2.len(),
        forall|i: int| 0 <= i < t ==> s2[i] == s1[i],
        forall|i: int| t <= i < s1.len() ==> !is_live(s2[i]),
    ensures
        visible(h1, s2) == visible(h0, s0),
{
    lemma_scan_equiv(h1, s2, s1, s2.len() as int, t, h1.len() as int);
    lemma_scan_equiv(h0, s0, s0, s0.len() as int, t, h0.len() as int);
}

/// Fold correctness: committing a transaction frame changes no visible value.
/// The frame's writes survive as ordinary data of the enclosing scope, so a
/// nested `start_transaction` → writes → `commit_transaction` →
/// `commit_transaction` ends with `get` returning exactly what the writes
/// left, as if they had been plain writes: `folded` is the layer sequence
/// `commit_transaction` produces, and every key resolves under it to the same
/// value as before the commit.
pub proof fn lemma_commit_preserves_visibility<V>(
    h: Seq<HistoriedValue<V>>,
    s: Seq<TransactionState>,
    c: int,
)
    requires
        wf(h, s.len() as int),
        0 <= c <= s.len(),
    ensures
        ({
            let folded = if crate::states::has_tx(s, c, s.len() as int) {
                s.update(
                    spec_tx_start(s, c, s.len() as int),
                    TransactionState::Pending,
                )
            } else {
                s
            };
            visible(h, folded.push(TransactionState::Pending)) == visible(h, s)
        }),
{
    let folded = if crate::states::has_tx(s, c, s.len() as int) {
        s.update(spec_tx_start(s, c, s.len() as int), TransactionState::Pending)
    } else {
        s
    };
    let s2 = folded.push(TransactionState::Pending);
    crate::states::lemma_tx_start(s, c, s.len() as int);
    assert forall|p: int|
        0 <= p < h.len() implies (((#[trigger] h[p].index) < s2.len() && is_live(
        s2[h[p].index as int],
    )) <==> (h[p].index < s.len() && is_live(s[h[p].index as int]))) by {
        assert(h[p].index < s.len());
    }
    lemma_scan_equiv(h, s2, s, s2.len() as int, s.len() as int, h.len() as int);
}

} // verus!
