//! Per-key version sequences.

use crate::states::{is_live, TransactionState};
use vstd::prelude::*;

verus! {

/// An entry at a given history height: a stored value paired with the layer
/// index at which it became current.
#[derive(Clone, Debug)]
pub struct HistoriedValue<V> {
    /// The stored value.
    pub value: V,
    /// The moment in history when the value got set.
    pub index: usize,
}

/// Every entry's layer index is below `n`: the history only refers to layers
/// that the stack of length `n` actually holds.
pub open spec fn wf<V>(h: Seq<HistoriedValue<V>>, n: int) -> bool {
    forall|p: int| 0 <= p < h.len() ==> (#[trigger] h[p].index) < n
}

/// Layer indices never decrease across entries in array order.
pub open spec fn ordered<V>(h: Seq<HistoriedValue<V>>) -> bool {
    forall|p: int, q: int| 0 <= p < q < h.len() ==> h[p].index <= h[q].index
}

/// Layer indices strictly increase across entries in array order.
pub open spec fn strictly_ordered<V>(h: Seq<HistoriedValue<V>>) -> bool {
    forall|p: int, q: int| 0 <= p < q < h.len() ==> h[p].index < h[q].index
}

/// The newest entry among the first `i` whose layer is live and strictly
/// below `t`, scanning newest to oldest.
pub open spec fn newest_live_at<V>(
    h: Seq<HistoriedValue<V>>,
    s: Seq<TransactionState>,
    t: int,
    i: int,
) -> Option<HistoriedValue<V>>
    decreases i,
{
    if i <= 0 {
        None
    } else if h[i - 1].index < t && is_live(s[h[i - 1].index as int]) {
        Some(h[i - 1])
    } else {
        newest_live_at(h, s, t, i - 1)
    }
}

/// The newest entry of `h` whose layer is live and strictly below `t`.
pub open spec fn newest_live_below<V>(
    h: Seq<HistoriedValue<V>>,
    s: Seq<TransactionState>,
    t: int,
) -> Option<HistoriedValue<V>> {
    newest_live_at(h, s, t, h.len() as int)
}

/// The value of the newest live entry below layer `t`, if any.
pub open spec fn vis_below<V>(h: Seq<HistoriedValue<V>>, s: Seq<TransactionState>, t: int) -> Option<
    V,
> {
    match newest_live_below(h, s, t) {
        Some(e) => Some(e.value),
        None => None,
    }
}

/// What `get` returns: the value of the newest live entry.  Under `wf` the
/// layer bound `s.len()` excludes nothing.
pub open spec fn visible<V>(h: Seq<HistoriedValue<V>>, s: Seq<TransactionState>) -> Option<V> {
    vis_below(h, s, s.len() as int)
}

/// Where the transaction scope holding layer `l` begins: `l` itself when the
/// layer opened a frame, otherwise the start of its enclosing scope.
pub open spec fn scope_anchor(s: Seq<TransactionState>, committed: int, l: int) -> int {
    if s[l] is TxPending {
        l
    } else {
        crate::states::spec_tx_start(s, committed, l)
    }
}

/// History of the values one key took, newest last.  Each value is paired
/// with the layer index at which it was written; the sequence is read against
/// the current layer stack, which it never caches.
#[derive(Clone, Debug)]
pub struct History<V>(Vec<HistoriedValue<V>>);

impl<V> View for History<V> {
    type V = Seq<HistoriedValue<V>>;

    closed spec fn view(&self) -> Seq<HistoriedValue<V>> {
        self.0@
    }
}

impl<V> Default for History<V> {
    /// An empty history.
    fn default() -> (r: Self)
        ensures
            r@ == Seq::<HistoriedValue<V>>::empty(),
    {
        History(Vec::new())
    }
}

impl<V> From<(V, usize)> for HistoriedValue<V> {
    /// Pair a value with the layer index at which it was written.
    fn from(input: (V, usize)) -> (r: HistoriedValue<V>)
        ensures
            r.value == input.0,
            r.index == input.1,
    {
        HistoriedValue { value: input.0, index: input.1 }
    }
}

impl<V> vstd::std_specs::convert::FromSpecImpl<(V, usize)> for HistoriedValue<V> {
    open spec fn obeys_from_spec() -> bool {
        true
    }

    open spec fn from_spec(input: (V, usize)) -> Self {
        HistoriedValue { value: input.0, index: input.1 }
    }
}

impl<V> HistoriedValue<V> {
    /// The same entry with the value borrowed.
    pub fn as_ref(&self) -> (r: HistoriedValue<&V>)
        ensures
            *r.value == self.value,
            r.index == self.index,
    {
        HistoriedValue { value: &self.value, index: self.index }
    }
}

impl<V> History<V> {
    /// Current number of entries.
    pub fn len(&self) -> (r: usize)
        ensures
            r == self@.len(),
    {
        self.0.len()
    }

    /// Append without checking against the layer stack.  Appending an entry
    /// whose layer is not strictly above every existing one breaks the
    /// ordering the read paths rely on; call it only when a compacting lookup
    /// showed that a `set` would append.
    pub fn push_unchecked(&mut self, value: HistoriedValue<V>)
        ensures
            final(self)@ == old(self)@.push(value),
    {
        self.0.push(value);
    }

    /// Build a history from explicit entries; construction-only helper for
    /// validation.  The entries are trusted to be layer-ordered.
    pub fn from_iter(input: Vec<HistoriedValue<V>>) -> (r: Self)
        ensures
            r@ == input@,
    {
        History(input)
    }

    /// Latest pending value: the newest entry whose layer is live, skipping
    /// dropped ones.  Never mutates the history; prefer a compacting lookup
    /// when memory can be freed.
    pub fn get(&self, states: &[TransactionState]) -> (r: Option<&V>)
        requires
            wf(self@, states@.len() as int),
        ensures
            r matches Some(v) ==> visible(self@, states@) == Some(*v),
            r is None ==> visible(self@, states@) is None,
    {
        let mut index = self.0.len();
        if index == 0 {
            return None;
        }
        while index > 0
            invariant
                index <= self@.len(),
                wf(self@, states@.len() as int),
                newest_live_below(self@, states@, states@.len() as int) == newest_live_at(
                    self@,
                    states@,
                    states@.len() as int,
                    index as int,
                ),
            decreases index,
        {
            index -= 1;
            let state_index = self.0[index].index;
            match states[state_index] {
                TransactionState::Dropped => {},
                TransactionState::Pending => {
                    return Some(&self.0[index].value);
                },
                TransactionState::TxPending => {
                    return Some(&self.0[index].value);
                },
            }
        }
        None
    }

    /// Latest pending value, consuming the history.
    pub fn into_pending(self, states: &[TransactionState]) -> (r: Option<V>)
        requires
            wf(self@, states@.len() as int),
        ensures
            r == visible(self@, states@),
    {
        let mut h = self;
        let mut index = h.0.len();
        if index == 0 {
            return None;
        }
        while index > 0
            invariant
                index <= h@.len(),
                h@ == self@,
                wf(self@, states@.len() as int),
                newest_live_below(self@, states@, states@.len() as int) == newest_live_at(
                    self@,
                    states@,
                    states@.len() as int,
                    index as int,
                ),
            decreases index,
        {
            index -= 1;
            let state_index = h.0[index].index;
            match states[state_index] {
                TransactionState::Dropped => {},
                TransactionState::Pending => {
                    h.0.truncate(index + 1);
                    return match h.0.pop() {
                        Some(e) => Some(e.value),
                        None => None,
                    };
                },
                TransactionState::TxPending => {
                    h.0.truncate(index + 1);
                    return match h.0.pop() {
                        Some(e) => Some(e.value),
                        None => None,
                    };
                },
            }
        }
        None
    }

    /// Latest value written strictly below the committed boundary, consuming
    /// the history: anything written after the boundary is ignored.
    pub fn into_committed(self, states: &[TransactionState], committed: usize) -> (r: Option<V>)
        requires
            wf(self@, states@.len() as int),
        ensures
            r == vis_below(self@, states@, committed as int),
    {
        let mut h = self;
        let mut index = h.0.len();
        if index == 0 {
            return None;
        }
        while index > 0
            invariant
                index <= h@.len(),
                h@ == self@,
                wf(self@, states@.len() as int),
                newest_live_below(self@, states@, committed as int) == newest_live_at(
                    self@,
                    states@,
                    committed as int,
                    index as int,
                ),
            decreases index,
        {
            index -= 1;
            let state_index = h.0[index].index;
            if state_index < committed {
                match states[state_index] {
                    TransactionState::Dropped => {},
                    TransactionState::Pending => {
                        h.0.truncate(index + 1);
                        return match h.0.pop() {
                            Some(e) => Some(e.value),
                            None => None,
                        };
                    },
                    TransactionState::TxPending => {
                        h.0.truncate(index + 1);
                        return match h.0.pop() {
                            Some(e) => Some(e.value),
                            None => None,
                        };
                    },
                }
            }
        }
        None
    }

    /// Latest value written strictly below the committed boundary, without
    /// consuming the history; validation helper.
    pub fn get_committed(&self, states: &[TransactionState], committed: usize) -> (r: Option<&V>)
        requires
            wf(self@, states@.len() as int),
        ensures
            r matches Some(v) ==> vis_below(self@, states@, committed as int) == Some(*v),
            r is None ==> vis_below(self@, states@, committed as int) is None,
    {
        let mut index = self.0.len();
        if index == 0 {
            return None;
        }
        while index > 0
            invariant
                index <= self@.len(),
                wf(self@, states@.len() as int),
                newest_live_below(self@, states@, committed as int) == newest_live_at(
                    self@,
                    states@,
                    committed as int,
                    index as int,
                ),
            decreases index,
        {
            index -= 1;
            let state_index = self.0[index].index;
            if state_index < committed {
                match states[state_index] {
                    TransactionState::Dropped => {},
                    TransactionState::Pending => {
                        return Some(&self.0[index].value);
                    },
                    TransactionState::TxPending => {
                        return Some(&self.0[index].value);
                    },
                }
            }
        }
        None
    }

    /// Latest live value among the entries from position `committed` up;
    /// validation helper for prospective-only lookups on histories whose
    /// positions align with the stack.
    pub fn get_prospective(&self, states: &[TransactionState], committed: usize) -> (r: Option<
        &V,
    >)
        requires
            wf(self@, states@.len() as int),
        ensures
            r matches Some(v) ==> newest_live_from(self@, states@, committed as int) matches Some(
                e,
            ) && e.value == *v,
            r is None ==> newest_live_from(self@, states@, committed as int) is None,
    {
        let mut index = self.0.len();
        if index <= committed {
            return None;
        }
        while index > committed
            invariant
                index <= self@.len(),
                wf(self@, states@.len() as int),
                newest_live_from(self@, states@, committed as int) == newest_live_from_at(
                    self@,
                    states@,
                    committed as int,
                    index as int,
                ),
            decreases index,
        {
            index -= 1;
            let state_index = self.0[index].index;
            match states[state_index] {
                TransactionState::Dropped => {},
                TransactionState::Pending => {
                    return Some(&self.0[index].value);
                },
                TransactionState::TxPending => {
                    return Some(&self.0[index].value);
                },
            }
        }
        None
    }
}

impl<V> History<V> {
    /// Compacting lookup: locate the entry `get` would return, drop dropped
    /// entries above it and collapse redundant live entries of its open scope
    /// into one slot (keeping the newest value under the scope's oldest
    /// label).  On success the live entry is the last one and its layer index
    /// is returned; when nothing is visible the history is cleared.
    #[verifier::rlimit(80)]
    pub fn get_mut(&mut self, states: (&[TransactionState], usize)) -> (r: Option<usize>)
        requires
            wf(old(self)@, states.0@.len() as int),
            states.1 <= states.0@.len(),
        ensures
            wf(final(self)@, states.0@.len() as int),
            final(self)@.len() <= old(self)@.len(),
            visible(final(self)@, states.0@) == visible(old(self)@, states.0@),
            r is Some <==> visible(old(self)@, states.0@) is Some,
            r is None ==> final(self)@ == Seq::<HistoriedValue<V>>::empty(),
            r matches Some(l) ==> final(self)@.len() > 0 && final(self)@.last().index == l && (
            l as int) < states.0@.len() && is_live(states.0@[l as int]) && visible(
                old(self)@,
                states.0@,
            ) == Some(final(self)@.last().value),
            ordered(old(self)@) ==> ordered(final(self)@),
            strictly_ordered(old(self)@) ==> strictly_ordered(final(self)@),
            // Writes and reads outside the retained entry's open scope are
            // unaffected: views below the scope start keep the same entry, and
            // views above the retained layer keep the same value.
            newest_live_below(
                old(self)@,
                states.0@,
                states.0@.len() as int,
            ) matches Some(e) ==> ordered(old(self)@) ==> (forall|t: int|
                t <= scope_anchor(states.0@, states.1 as int, e.index as int)
                    ==> newest_live_below(final(self)@, states.0@, t) == newest_live_below(
                    old(self)@,
                    states.0@,
                    t,
                )) && (forall|t: int|
                t > e.index ==> vis_below(final(self)@, states.0@, t) == vis_below(
                    old(self)@,
                    states.0@,
                    t,
                )),
            // Compaction bound: every surviving entry below the retained one
            // that is still live lies strictly below the retained scope.
            r matches Some(l) ==> strictly_ordered(old(self)@) ==> forall|p: int|
                0 <= p < final(self)@.len() - 1 && live_entry(
                    states.0@,
                    #[trigger] final(self)@[p],
                ) ==> (final(self)@[p].index as int) < scope_anchor(
                    states.0@,
                    states.1 as int,
                    l as int,
                ),
    {
        let ghost s = states.0@;
        let ghost c = states.1 as int;
        let ghost h = old(self)@;
        let len = self.0.len();
        if len == 0 {
            return None;
        }
        let mut index: usize = len;
        let mut have_result: bool = false;
        let mut result_pos: usize = 0;
        let mut result_layer: usize = 0;
        let mut previous_transaction: usize = usize::MAX;
        let mut have_switch: bool = false;
        let mut switch_pos: usize = 0;
        let mut switch_layer: usize = 0;
        let mut done: bool = false;
        while index > 0 && !done
            invariant
                self@ == old(self)@,
                len == self@.len(),
                index <= len,
                wf(self@, states.0@.len() as int),
                states.1 <= states.0@.len(),
                !have_result ==> !done && !have_switch && previous_transaction == usize::MAX && (
                forall|p: int|
                    index <= p < len ==> !live_entry(states.0@, #[trigger] self@[p])),
                have_result ==> index <= result_pos < len && self@[result_pos as int].index
                    == result_layer && live_entry(states.0@, self@[result_pos as int]) && (
                forall|p: int|
                    result_pos < p < len ==> !live_entry(states.0@, #[trigger] self@[p])),
                have_result && states.0@[result_layer as int] is Pending ==> previous_transaction
                    as int == crate::states::spec_tx_start(
                    states.0@,
                    states.1 as int,
                    result_layer as int,
                ),
                have_result && !(states.0@[result_layer as int] is Pending) ==> done
                    && !have_switch && result_pos == index,
                have_switch ==> have_result && index <= switch_pos < result_pos
                    && self@[switch_pos as int].index == switch_layer && live_entry(
                    states.0@,
                    self@[switch_pos as int],
                ) && switch_layer >= previous_transaction
                    && states.0@[result_layer as int] is Pending,
                have_switch ==> forall|p: int|
                    switch_pos < p < result_pos ==> (!live_entry(states.0@, #[trigger] self@[p])
                        || self@[p].index >= previous_transaction),
                have_result && !done ==> forall|p: int|
                    index <= p < (if have_switch {
                        switch_pos as int
                    } else {
                        result_pos as int
                    }) ==> !live_entry(states.0@, #[trigger] self@[p]),
                done ==> have_result && ((have_switch && switch_pos == index && states.0@[switch_layer as int] is TxPending)
                    || (result_pos == index && !(states.0@[result_layer as int] is Pending))
                    || (live_entry(states.0@, self@[index as int])
                    && (self@[index as int].index as int) < previous_transaction as int && forall|
                    p: int,
                |
                    index < p < (if have_switch {
                        switch_pos as int
                    } else {
                        result_pos as int
                    }) ==> !live_entry(states.0@, #[trigger] self@[p]))),
            decreases index,
        {
            index -= 1;
            let state_index = self.0[index].index;
            proof {
                assert(self@[index as int].index < states.0@.len());
            }
            match states.0[state_index] {
                TransactionState::TxPending => {
                    if state_index >= previous_transaction {
                        have_switch = true;
                        switch_pos = index;
                        switch_layer = state_index;
                    } else {
                        if !have_result {
                            have_result = true;
                            result_pos = index;
                            result_layer = state_index;
                        }
                    }
                    done = true;
                },
                TransactionState::Pending => {
                    if state_index >= previous_transaction {
                        have_switch = true;
                        switch_pos = index;
                        switch_layer = state_index;
                    } else {
                        if !have_result {
                            have_result = true;
                            result_pos = index;
                            result_layer = state_index;
                            previous_transaction = crate::states::find_previous_tx_start(
                                states,
                                state_index,
                            );
                        } else {
                            done = true;
                        }
                    }
                },
                TransactionState::Dropped => {},
            }
        }
        if have_result {
            proof {
                lemma_newest_live_at_dead_above(
                    h,
                    s,
                    s.len() as int,
                    result_pos as int + 1,
                    len as int,
                );
                assert(newest_live_below(h, s, s.len() as int) == Some(h[result_pos as int]));
            }
            if result_pos + 1 < self.0.len() {
                self.0.truncate(result_pos + 1);
            }
            proof {
                assert(self@ =~= h.subrange(0, result_pos as int + 1));
            }
            if have_switch {
                match self.0.pop() {
                    Some(e) => {
                        self.0.truncate(switch_pos);
                        self.0.push(HistoriedValue { value: e.value, index: switch_layer });
                    },
                    None => {},
                }
                proof {
                    let ri = result_pos as int;
                    let rl = result_layer as int;
                    let si = switch_pos as int;
                    let sl = switch_layer as int;
                    let pt = previous_transaction as int;
                    let slen = s.len() as int;
                    assert(self@ =~= h.subrange(0, si).push(
                        HistoriedValue { value: h[ri].value, index: switch_layer },
                    ));
                    let f = self@;
                    assert(forall|p: int| 0 <= p < si ==> f[p] == h[p]);
                    assert(sl < slen && is_live(s[sl]));
                    assert(newest_live_below(f, s, slen) == Some(f[si]));
                    if ordered(h) {
                        if rl < c {
                            assert(pt == c);
                            assert(h[si].index <= h[ri].index);
                            assert(false);
                        }
                        crate::states::lemma_tx_start(s, c, rl);
                        assert(c <= pt <= rl);
                        assert(sl <= rl) by {
                            assert(h[si].index <= h[ri].index);
                        }
                        assert forall|t: int| t <= pt implies newest_live_below(f, s, t)
                            == newest_live_below(h, s, t) by {
                            assert(newest_live_at(f, s, t, si + 1) == newest_live_at(
                                f,
                                s,
                                t,
                                si,
                            ));
                            lemma_newest_live_at_agree(f, h, s, t, si);
                            assert forall|p: int| si <= p < h.len() implies !((#[trigger] h[p].index)
                                < t && is_live(s[h[p].index as int])) by {
                                if p > ri {
                                    assert(!live_entry(s, h[p]));
                                } else if si < p && p < ri {
                                    assert(!live_entry(s, h[p]) || h[p].index
                                        >= previous_transaction);
                                }
                            }
                            lemma_newest_live_at_dead_above(h, s, t, si, h.len() as int);
                        }
                        assert forall|t: int| t > rl implies vis_below(f, s, t) == vis_below(
                            h,
                            s,
                            t,
                        ) by {
                            assert forall|p: int| ri + 1 <= p < h.len() implies !((
                            #[trigger] h[p].index) < t && is_live(s[h[p].index as int])) by {
                                assert(!live_entry(s, h[p]));
                            }
                            lemma_newest_live_at_dead_above(h, s, t, ri + 1, h.len() as int);
                            assert(newest_live_below(h, s, t) == Some(h[ri]));
                            assert(newest_live_below(f, s, t) == Some(f[si]));
                        }
                        assert(ordered(f)) by {
                            assert forall|p: int, q: int| 0 <= p < q < f.len() implies f[p].index
                                <= f[q].index by {
                                if q == f.len() - 1 {
                                    assert(h[p].index <= h[si].index);
                                }
                            }
                        }
                    }
                    if strictly_ordered(h) {
                        assert(strictly_ordered(f)) by {
                            assert forall|p: int, q: int| 0 <= p < q < f.len() implies f[p].index
                                < f[q].index by {
                                if q == f.len() - 1 {
                                    assert(h[p].index < h[si].index);
                                }
                            }
                        }
                        assert forall|p: int|
                            0 <= p < f.len() - 1 && live_entry(s, #[trigger] f[p]) implies (
                        f[p].index as int) < scope_anchor(s, c, sl) by {
                            assert(f[p] == h[p]);
                            if s[sl] is TxPending {
                                assert(h[p].index < h[si].index);
                            } else {
                                if rl < c {
                                    assert(pt == c);
                                    assert(h[si].index <= h[ri].index);
                                    assert(false);
                                }
                                crate::states::lemma_tx_start(s, c, rl);
                                assert(c <= pt <= rl);
                                assert(pt <= sl <= rl) by {
                                    assert(h[si].index < h[ri].index);
                                }
                                assert forall|j: int| sl <= j < rl implies !(s[j] is TxPending) by {
                                    if j > sl {
                                        assert(pt < j < rl);
                                    }
                                }
                                crate::states::lemma_tx_start_stable(s, c, sl, rl);
                                assert(scope_anchor(s, c, sl) == pt);
                                if done {
                                    if switch_pos == index {
                                        assert(false);
                                    } else if result_pos == index {
                                        assert(false);
                                    } else {
                                        assert(live_entry(s, h[index as int]) && (h[index as int].index
                                            as int) < pt);
                                        if p < index {
                                            assert(h[p].index < h[index as int].index);
                                        }
                                    }
                                } else {
                                    assert(index == 0);
                                }
                            }
                        }
                    }
                }
                Some(switch_layer)
            } else {
                proof {
                    let ri = result_pos as int;
                    let rl = result_layer as int;
                    let pt = previous_transaction as int;
                    let slen = s.len() as int;
                    let f = self@;
                    assert(forall|p: int| 0 <= p <= ri ==> f[p] == h[p]);
                    assert(newest_live_below(f, s, slen) == Some(f[ri]));
                    assert forall|t: int| newest_live_below(f, s, t) == newest_live_below(
                        h,
                        s,
                        t,
                    ) by {
                        assert forall|p: int| ri + 1 <= p < h.len() implies !((#[trigger] h[p].index)
                            < t && is_live(s[h[p].index as int])) by {
                            assert(!live_entry(s, h[p]));
                        }
                        lemma_newest_live_at_dead_above(h, s, t, ri + 1, h.len() as int);
                        lemma_newest_live_at_agree(f, h, s, t, ri + 1);
                    }
                    if strictly_ordered(h) {
                        assert forall|p: int|
                            0 <= p < f.len() - 1 && live_entry(s, #[trigger] f[p]) implies (
                        f[p].index as int) < scope_anchor(s, c, rl) by {
                            assert(f[p] == h[p]);
                            if s[rl] is TxPending {
                                assert(h[p].index < h[ri].index);
                            } else {
                                assert(scope_anchor(s, c, rl) == pt);
                                if done {
                                    assert(live_entry(s, h[index as int]) && (h[index as int].index
                                        as int) < pt);
                                    if p < index {
                                        assert(h[p].index < h[index as int].index);
                                    }
                                } else {
                                    assert(index == 0);
                                }
                            }
                        }
                    }
                }
                Some(result_layer)
            }
        } else {
            proof {
                lemma_newest_live_at_dead_above(h, s, s.len() as int, 0, len as int);
                assert forall|t: int| newest_live_below(h, s, t) is None by {
                    lemma_newest_live_at_dead_above(h, s, t, 0, len as int);
                }
            }
            self.0.clear();
            None
        }
    }
}

impl<V> History<V> {
    /// Compacting lookup with optional eager garbage collection.  With the
    /// flag clear this behaves exactly like `get_mut`.  With the flag set it
    /// additionally removes, permanently, every entry strictly before the
    /// newest live entry whose layer is already below the committed boundary;
    /// a later rollback of the boundary cannot resurrect what was pruned, so
    /// only views at or above the boundary are preserved.
    #[verifier::rlimit(100)]
    #[verifier::spinoff_prover]
    pub fn get_mut_pruning(
        &mut self,
        states: (&[TransactionState], usize),
        prune_to_commit: bool,
    ) -> (r: Option<usize>)
        requires
            wf(old(self)@, states.0@.len() as int),
            states.1 <= states.0@.len(),
            prune_to_commit ==> ordered(old(self)@),
        ensures
            wf(final(self)@, states.0@.len() as int),
            final(self)@.len() <= old(self)@.len(),
            visible(final(self)@, states.0@) == visible(old(self)@, states.0@),
            r is Some <==> visible(old(self)@, states.0@) is Some,
            r is None ==> final(self)@ == Seq::<HistoriedValue<V>>::empty(),
            r matches Some(l) ==> final(self)@.len() > 0 && final(self)@.last().index == l && (
            l as int) < states.0@.len() && is_live(states.0@[l as int]) && visible(
                old(self)@,
                states.0@,
            ) == Some(final(self)@.last().value),
            ordered(old(self)@) ==> ordered(final(self)@),
            strictly_ordered(old(self)@) ==> strictly_ordered(final(self)@),
            // Views below the retained scope survive, down to the committed
            // boundary when pruning; views above the retained layer keep the
            // same value.
            newest_live_below(
                old(self)@,
                states.0@,
                states.0@.len() as int,
            ) matches Some(e) ==> ordered(old(self)@) ==> (forall|t: int|
                (!prune_to_commit || states.1 as int <= t) && t <= scope_anchor(
                    states.0@,
                    states.1 as int,
                    e.index as int,
                ) ==> newest_live_below(final(self)@, states.0@, t) == newest_live_below(
                    old(self)@,
                    states.0@,
                    t,
                )) && (forall|t: int|
                t > e.index ==> vis_below(final(self)@, states.0@, t) == vis_below(
                    old(self)@,
                    states.0@,
                    t,
                )),
            // Compaction bound, as for `get_mut`.
            r matches Some(l) ==> strictly_ordered(old(self)@) ==> forall|p: int|
                0 <= p < final(self)@.len() - 1 && live_entry(
                    states.0@,
                    #[trigger] final(self)@[p],
                ) ==> (final(self)@[p].index as int) < scope_anchor(
                    states.0@,
                    states.1 as int,
                    l as int,
                ),
    {
        let ghost s = states.0@;
        let ghost c = states.1 as int;
        let ghost h = old(self)@;
        let len = self.0.len();
        if len == 0 {
            return None;
        }
        let mut index: usize = len;
        let mut prune_index: usize = 0;
        let mut have_result: bool = false;
        let mut result_pos: usize = 0;
        let mut result_layer: usize = 0;
        let mut previous_transaction: usize = usize::MAX;
        let mut have_switch: bool = false;
        let mut switch_pos: usize = 0;
        let mut switch_layer: usize = 0;
        let mut done: bool = false;
        while index > 0 && !done
            invariant
                self@ == old(self)@,
                len == self@.len(),
                index <= len,
                wf(self@, states.0@.len() as int),
                states.1 <= states.0@.len(),
                prune_to_commit ==> ordered(self@),
                prune_index == 0 || (index <= prune_index < len && live_entry(
                    states.0@,
                    self@[prune_index as int],
                ) && (self@[prune_index as int].index as int) < states.1 as int),
                !have_result ==> prune_index == 0,
                have_result ==> prune_index <= result_pos,
                !have_result ==> !done && !have_switch && previous_transaction == usize::MAX && (
                forall|p: int|
                    index <= p < len ==> !live_entry(states.0@, #[trigger] self@[p])),
                have_result ==> index <= result_pos < len && self@[result_pos as int].index
                    == result_layer && live_entry(states.0@, self@[result_pos as int]) && (
                forall|p: int|
                    result_pos < p < len ==> !live_entry(states.0@, #[trigger] self@[p])),
                have_result && states.0@[result_layer as int] is Pending ==> previous_transaction
                    as int == crate::states::spec_tx_start(
                    states.0@,
                    states.1 as int,
                    result_layer as int,
                ),
                have_result && !(states.0@[result_layer as int] is Pending) ==> !have_switch
                    && previous_transaction == usize::MAX,
                have_switch ==> have_result && index <= switch_pos < result_pos
                    && self@[switch_pos as int].index == switch_layer && live_entry(
                    states.0@,
                    self@[switch_pos as int],
                ) && switch_layer >= previous_transaction
                    && states.0@[result_layer as int] is Pending,
                have_switch ==> forall|p: int|
                    switch_pos < p < result_pos ==> (!live_entry(states.0@, #[trigger] self@[p])
                        || self@[p].index >= previous_transaction),
                have_result && !done ==> forall|p: int|
                    index <= p < (if have_switch {
                        switch_pos as int
                    } else {
                        result_pos as int
                    }) ==> (!live_entry(states.0@, #[trigger] self@[p]) || (prune_to_commit
                        && (self@[p].index as int) < previous_transaction as int)),
                done ==> have_result && ((have_switch && switch_pos == index
                    && states.0@[switch_layer as int] is TxPending) || (result_pos == index && !(
                states.0@[result_layer as int] is Pending)) || (live_entry(
                    states.0@,
                    self@[index as int],
                ) && (self@[index as int].index as int) < previous_transaction as int && forall|
                    p: int,
                |
                    index < p < (if have_switch {
                        switch_pos as int
                    } else {
                        result_pos as int
                    }) ==> (!live_entry(states.0@, #[trigger] self@[p]) || (prune_to_commit && (
                    self@[p].index as int) < previous_transaction as int)))),
            decreases index,
        {
            index -= 1;
            let state_index = self.0[index].index;
            proof {
                assert(self@[index as int].index < states.0@.len());
            }
            match states.0[state_index] {
                TransactionState::TxPending => {
                    if state_index < states.1 && index > prune_index {
                        prune_index = index;
                    }
                    if state_index >= previous_transaction {
                        have_switch = true;
                        switch_pos = index;
                        switch_layer = state_index;
                    } else {
                        if !have_result {
                            have_result = true;
                            result_pos = index;
                            result_layer = state_index;
                        }
                    }
                    if prune_to_commit {
                        if state_index < states.1 {
                            done = true;
                        }
                    } else {
                        done = true;
                    }
                },
                TransactionState::Pending => {
                    if state_index < states.1 && index > prune_index {
                        prune_index = index;
                    }
                    if state_index >= previous_transaction {
                        have_switch = true;
                        switch_pos = index;
                        switch_layer = state_index;
                    } else {
                        if !have_result {
                            have_result = true;
                            result_pos = index;
                            result_layer = state_index;
                            previous_transaction = crate::states::find_previous_tx_start(
                                states,
                                state_index,
                            );
                        } else {
                            if prune_to_commit {
                                if state_index < states.1 {
                                    done = true;
                                }
                            } else {
                                done = true;
                            }
                        }
                    }
                },
                TransactionState::Dropped => {},
            }
        }
        let deleted: usize = if prune_to_commit && prune_index > 0 && have_result {
            let tail = self.0.split_off(prune_index);
            self.0 = tail;
            prune_index
        } else {
            0
        };
        let ghost del = deleted as int;
        proof {
            assert(self@ =~= h.skip(del));
            if del > 0 {
                assert((h[del].index as int) < c && live_entry(s, h[del]));
            }
        }
        if have_result {
            proof {
                lemma_newest_live_at_dead_above(
                    h,
                    s,
                    s.len() as int,
                    result_pos as int + 1,
                    len as int,
                );
                assert(newest_live_below(h, s, s.len() as int) == Some(h[result_pos as int]));
            }
            if result_pos + 1 - deleted < self.0.len() {
                self.0.truncate(result_pos + 1 - deleted);
            }
            proof {
                assert(self@ =~= h.subrange(del, result_pos as int + 1));
            }
            if have_switch {
                proof {
                    let ri = result_pos as int;
                    let rl = result_layer as int;
                    let si = switch_pos as int;
                    let sl = switch_layer as int;
                    let pt = previous_transaction as int;
                    if del > 0 {
                        if rl < c {
                            assert(pt == c);
                            assert(h[si].index <= h[ri].index);
                            assert(false);
                        }
                        crate::states::lemma_tx_start(s, c, rl);
                        assert(c <= pt <= rl);
                        assert((h[del].index as int) < c);
                        assert(sl >= pt >= c);
                        assert(del < si) by {
                            if si <= del {
                                assert(h[si].index <= h[del].index);
                            }
                        }
                    }
                }
                match self.0.pop() {
                    Some(e) => {
                        self.0.truncate(switch_pos - deleted);
                        self.0.push(HistoriedValue { value: e.value, index: switch_layer });
                    },
                    None => {},
                }
                proof {
                    let ri = result_pos as int;
                    let rl = result_layer as int;
                    let si = switch_pos as int;
                    let sl = switch_layer as int;
                    let pt = previous_transaction as int;
                    let slen = s.len() as int;
                    assert(self@ =~= h.subrange(del, si).push(
                        HistoriedValue { value: h[ri].value, index: switch_layer },
                    ));
                    let f = self@;
                    assert(forall|p: int| 0 <= p < si - del ==> f[p] == h[p + del]);
                    assert(sl < slen && is_live(s[sl]));
                    assert(newest_live_below(f, s, slen) == Some(f[si - del]));
                    if ordered(h) {
                        if rl < c {
                            assert(pt == c);
                            assert(h[si].index <= h[ri].index);
                            assert(false);
                        }
                        crate::states::lemma_tx_start(s, c, rl);
                        assert(c <= pt <= rl);
                        assert(sl <= rl) by {
                            assert(h[si].index <= h[ri].index);
                        }
                        assert forall|t: int| (!prune_to_commit || c <= t) && t <= pt implies
                            newest_live_below(f, s, t) == newest_live_below(h, s, t) by {
                            assert(newest_live_at(f, s, t, si - del + 1) == newest_live_at(
                                f,
                                s,
                                t,
                                si - del,
                            ));
                            lemma_newest_live_at_agree(f, h.skip(del), s, t, si - del);
                            if del > 0 {
                                assert((h[del].index as int) < c <= t);
                                lemma_newest_live_at_skip(h, s, t, del, si);
                            } else {
                                lemma_newest_live_at_agree(h.skip(0), h, s, t, si);
                            }
                            assert forall|p: int| si <= p < h.len() implies !((#[trigger] h[p].index)
                                < t && is_live(s[h[p].index as int])) by {
                                if p > ri {
                                    assert(!live_entry(s, h[p]));
                                } else if si < p && p < ri {
                                    assert(!live_entry(s, h[p]) || h[p].index
                                        >= previous_transaction);
                                }
                            }
                            lemma_newest_live_at_dead_above(h, s, t, si, h.len() as int);
                        }
                        assert forall|t: int| t > rl implies vis_below(f, s, t) == vis_below(
                            h,
                            s,
                            t,
                        ) by {
                            assert forall|p: int| ri + 1 <= p < h.len() implies !((
                            #[trigger] h[p].index) < t && is_live(s[h[p].index as int])) by {
                                assert(!live_entry(s, h[p]));
                            }
                            lemma_newest_live_at_dead_above(h, s, t, ri + 1, h.len() as int);
                            assert(newest_live_below(h, s, t) == Some(h[ri]));
                            assert(newest_live_below(f, s, t) == Some(f[si - del]));
                        }
                        assert(ordered(f)) by {
                            assert forall|p: int, q: int| 0 <= p < q < f.len() implies f[p].index
                                <= f[q].index by {
                                if q == f.len() - 1 {
                                    assert(h[p + del].index <= h[si].index);
                                } else {
                                    assert(h[p + del].index <= h[q + del].index);
                                }
                            }
                        }
                    }
                    if strictly_ordered(h) {
                        assert(strictly_ordered(f)) by {
                            assert forall|p: int, q: int| 0 <= p < q < f.len() implies f[p].index
                                < f[q].index by {
                                if q == f.len() - 1 {
                                    assert(h[p + del].index < h[si].index);
                                } else {
                                    assert(h[p + del].index < h[q + del].index);
                                }
                            }
                        }
                        assert forall|p: int|
                            0 <= p < f.len() - 1 && live_entry(s, #[trigger] f[p]) implies (
                        f[p].index as int) < scope_anchor(s, c, sl) by {
                            assert(f[p] == h[p + del]);
                            if s[sl] is TxPending {
                                assert(h[p + del].index < h[si].index);
                            } else {
                                assert(pt <= sl <= rl) by {
                                    assert(h[si].index < h[ri].index);
                                }
                                assert forall|j: int| sl <= j < rl implies !(s[j] is TxPending) by {
                                    if j > sl {
                                        assert(pt < j < rl);
                                    }
                                }
                                crate::states::lemma_tx_start_stable(s, c, sl, rl);
                                assert(scope_anchor(s, c, sl) == pt);
                                if done {
                                    assert(live_entry(s, h[index as int]) && (h[index as int].index
                                        as int) < pt);
                                    if p + del < index {
                                        assert(h[p + del].index < h[index as int].index);
                                    }
                                } else {
                                    assert(index == 0);
                                }
                            }
                        }
                    }
                }
                Some(switch_layer)
            } else {
                proof {
                    let ri = result_pos as int;
                    let rl = result_layer as int;
                    let pt = previous_transaction as int;
                    let slen = s.len() as int;
                    let f = self@;
                    assert(forall|p: int| 0 <= p <= ri - del ==> f[p] == h[p + del]);
                    assert(newest_live_below(f, s, slen) == Some(f[ri - del]));
                    assert forall|t: int| (!prune_to_commit || c <= t) implies newest_live_below(
                        f,
                        s,
                        t,
                    ) == newest_live_below(h, s, t) by {
                        assert forall|p: int| ri + 1 <= p < h.len() implies !((#[trigger] h[p].index)
                            < t && is_live(s[h[p].index as int])) by {
                            assert(!live_entry(s, h[p]));
                        }
                        lemma_newest_live_at_dead_above(h, s, t, ri + 1, h.len() as int);
                        if rl < t {
                            assert(newest_live_below(h, s, t) == Some(h[ri]));
                            assert(newest_live_below(f, s, t) == Some(f[ri - del]));
                        } else {
                            assert(newest_live_at(f, s, t, ri - del + 1) == newest_live_at(
                                f,
                                s,
                                t,
                                ri - del,
                            ));
                            assert(newest_live_at(h, s, t, ri + 1) == newest_live_at(
                                h,
                                s,
                                t,
                                ri,
                            ));
                            lemma_newest_live_at_agree(f, h.skip(del), s, t, ri - del);
                            if del > 0 {
                                assert((h[del].index as int) < c <= t);
                                assert(del < ri) by {
                                    if ri <= del {
                                        assert(h[ri].index <= h[del].index);
                                    }
                                }
                                lemma_newest_live_at_skip(h, s, t, del, ri);
                            } else {
                                lemma_newest_live_at_agree(h.skip(0), h, s, t, ri);
                            }
                        }
                    }
                    assert forall|t: int| t > rl implies vis_below(f, s, t) == vis_below(
                        h,
                        s,
                        t,
                    ) by {
                        assert forall|p: int| ri + 1 <= p < h.len() implies !((
                        #[trigger] h[p].index) < t && is_live(s[h[p].index as int])) by {
                            assert(!live_entry(s, h[p]));
                        }
                        lemma_newest_live_at_dead_above(h, s, t, ri + 1, h.len() as int);
                        assert(newest_live_below(h, s, t) == Some(h[ri]));
                        assert(newest_live_below(f, s, t) == Some(f[ri - del]));
                    }
                    assert(ordered(h) ==> ordered(f)) by {
                        if ordered(h) {
                            assert forall|p: int, q: int| 0 <= p < q < f.len() implies f[p].index
                                <= f[q].index by {
                                assert(h[p + del].index <= h[q + del].index);
                            }
                        }
                    }
                    if strictly_ordered(h) {
                        assert(strictly_ordered(f)) by {
                            assert forall|p: int, q: int| 0 <= p < q < f.len() implies f[p].index
                                < f[q].index by {
                                assert(h[p + del].index < h[q + del].index);
                            }
                        }
                        assert forall|p: int|
                            0 <= p < f.len() - 1 && live_entry(s, #[trigger] f[p]) implies (
                        f[p].index as int) < scope_anchor(s, c, rl) by {
                            assert(f[p] == h[p + del]);
                            if s[rl] is TxPending {
                                assert(h[p + del].index < h[ri].index);
                            } else {
                                assert(scope_anchor(s, c, rl) == pt);
                                if done {
                                    assert(live_entry(s, h[index as int]) && (h[index as int].index
                                        as int) < pt);
                                    if p + del < index {
                                        assert(h[p + del].index < h[index as int].index);
                                    }
                                } else {
                                    assert(index == 0);
                                }
                            }
                        }
                    }
                }
                Some(result_layer)
            }
        } else {
            proof {
                lemma_newest_live_at_dead_above(h, s, s.len() as int, 0, len as int);
                assert forall|t: int| newest_live_below(h, s, t) is None by {
                    lemma_newest_live_at_dead_above(h, s, t, 0, len as int);
                }
            }
            self.0.clear();
            None
        }
    }

    /// Set a value: compact the history, then overwrite in place when the
    /// retained entry is already tagged to the current top layer, or append a
    /// new entry tagged to the top layer.  Afterwards the new value is what
    /// `get` returns, and views of scopes below the one written to are
    /// unchanged.
    pub fn set(&mut self, states: (&[TransactionState], usize), value: V)
        requires
            wf(old(self)@, states.0@.len() as int),
            states.1 <= states.0@.len(),
            states.0@.len() > 0,
            is_live(states.0@.last()),
        ensures
            wf(final(self)@, states.0@.len() as int),
            final(self)@.len() > 0,
            final(self)@.last().index as int == states.0@.len() - 1,
            visible(final(self)@, states.0@) == Some(value),
            ordered(old(self)@) ==> ordered(final(self)@),
            strictly_ordered(old(self)@) ==> strictly_ordered(final(self)@),
            visible(old(self)@, states.0@) is None ==> final(self)@.len() == 1
                && final(self)@[0].value == value,
            visible(old(self)@, states.0@) is None ==> forall|t: int|
                t < states.0@.len() ==> newest_live_below(final(self)@, states.0@, t)
                    == newest_live_below(old(self)@, states.0@, t),
            newest_live_below(
                old(self)@,
                states.0@,
                states.0@.len() as int,
            ) matches Some(e) ==> ordered(old(self)@) ==> (forall|t: int|
                t <= scope_anchor(states.0@, states.1 as int, e.index as int) && t
                    < states.0@.len() ==> newest_live_below(final(self)@, states.0@, t)
                    == newest_live_below(old(self)@, states.0@, t)) && (forall|t: int|
                e.index < t < states.0@.len() ==> vis_below(final(self)@, states.0@, t)
                    == vis_below(old(self)@, states.0@, t)),
    {
        let ghost h = old(self)@;
        let ghost s = states.0@;
        let ghost slen = s.len() as int;
        let top = states.0.len() - 1;
        let r = self.get_mut(states);
        let ghost mid = self@;
        match r {
            Some(l) => {
                if l == top {
                    match self.0.pop() {
                        Some(e) => {
                            self.0.push(HistoriedValue { value, index: e.index });
                        },
                        None => {},
                    }
                    proof {
                        let f = self@;
                        let n = mid.len() as int;
                        assert(f =~= mid.subrange(0, n - 1).push(
                            HistoriedValue { value, index: top },
                        ));
                        assert(forall|p: int| 0 <= p < n ==> f[p].index == mid[p].index);
                        assert(newest_live_below(f, s, slen) == Some(f[n - 1]));
                        if ordered(h) {
                            assert(ordered(f)) by {
                                assert forall|p: int, q: int|
                                    0 <= p < q < f.len() implies f[p].index <= f[q].index by {
                                    assert(mid[p].index <= mid[q].index);
                                }
                            }
                        }
                        if strictly_ordered(h) {
                            assert(strictly_ordered(f)) by {
                                assert forall|p: int, q: int|
                                    0 <= p < q < f.len() implies f[p].index < f[q].index by {
                                    assert(mid[p].index < mid[q].index);
                                }
                            }
                        }
                        assert forall|t: int| t < slen implies newest_live_below(f, s, t)
                            == newest_live_below(mid, s, t) by {
                            assert(newest_live_at(f, s, t, n) == newest_live_at(f, s, t, n - 1));
                            assert(newest_live_at(mid, s, t, n) == newest_live_at(
                                mid,
                                s,
                                t,
                                n - 1,
                            ));
                            lemma_newest_live_at_agree(f, mid, s, t, n - 1);
                        }
                    }
                    return ;
                }
            },
            None => {},
        }
        self.push_unchecked(HistoriedValue { value, index: top });
        proof {
            let f = self@;
            let n = mid.len() as int;
            assert(forall|p: int| 0 <= p < n ==> f[p] == mid[p]);
            assert(newest_live_below(f, s, slen) == Some(f[n]));
            if visible(h, s) is None {
                lemma_none_means_dead(h, s, slen, h.len() as int);
                assert forall|t: int| t < slen implies newest_live_below(f, s, t)
                    == newest_live_below(h, s, t) by {
                    lemma_newest_live_at_dead_above(h, s, t, 0, h.len() as int);
                    assert(newest_live_at(f, s, t, n + 1) == newest_live_at(f, s, t, n));
                    assert(newest_live_at(f, s, t, 0) is None);
                }
            }
            if ordered(h) {
                assert(ordered(f)) by {
                    assert forall|p: int, q: int| 0 <= p < q < f.len() implies f[p].index
                        <= f[q].index by {
                        if q < n {
                            assert(mid[p].index <= mid[q].index);
                        } else if p < n {
                            assert(mid[p].index <= mid[n - 1].index);
                        }
                    }
                }
            }
            if strictly_ordered(h) {
                assert(strictly_ordered(f)) by {
                    assert forall|p: int, q: int| 0 <= p < q < f.len() implies f[p].index
                        < f[q].index by {
                        if q < n {
                            assert(mid[p].index < mid[q].index);
                        } else if p < n {
                            assert(mid[p].index <= mid[n - 1].index);
                            assert(mid[n - 1].index < top) by {
                                assert(mid[n - 1].index != top);
                            }
                        }
                    }
                }
            }
            assert forall|t: int| t < slen implies newest_live_below(f, s, t) == newest_live_below(
                mid,
                s,
                t,
            ) by {
                assert(newest_live_at(f, s, t, n + 1) == newest_live_at(f, s, t, n));
                lemma_newest_live_at_agree(f, mid, s, t, n);
            }
        }
    }
}

/// A history with no visible value has no live entry at all.
pub proof fn lemma_none_means_dead<V>(
    h: Seq<HistoriedValue<V>>,
    s: Seq<TransactionState>,
    t: int,
    i: int,
)
    requires
        0 <= i <= h.len(),
        forall|p: int| 0 <= p < i ==> (#[trigger] h[p].index) < t,
        newest_live_at(h, s, t, i) is None,
    ensures
        forall|p: int| 0 <= p < i ==> !live_entry(s, #[trigger] h[p]),
    decreases i,
{
    if i > 0 {
        lemma_none_means_dead(h, s, t, i - 1);
    }
}

/// A history entry whose tagged layer is live.
pub open spec fn live_entry<V>(s: Seq<TransactionState>, e: HistoriedValue<V>) -> bool {
    is_live(s[e.index as int])
}

/// The newest live entry among positions `[floor, i)`.
pub open spec fn newest_live_from_at<V>(
    h: Seq<HistoriedValue<V>>,
    s: Seq<TransactionState>,
    floor: int,
    i: int,
) -> Option<HistoriedValue<V>>
    decreases i - floor,
{
    if i <= floor || i <= 0 {
        None
    } else if is_live(s[h[i - 1].index as int]) {
        Some(h[i - 1])
    } else {
        newest_live_from_at(h, s, floor, i - 1)
    }
}

/// The newest live entry at position `floor` or above.
pub open spec fn newest_live_from<V>(
    h: Seq<HistoriedValue<V>>,
    s: Seq<TransactionState>,
    floor: int,
) -> Option<HistoriedValue<V>> {
    newest_live_from_at(h, s, floor, h.len() as int)
}

/// Cutting a prefix strictly below a qualifying entry does not change which
/// entry a newest-to-oldest scan resolves to.
pub proof fn lemma_newest_live_at_skip<V>(
    h: Seq<HistoriedValue<V>>,
    s: Seq<TransactionState>,
    t: int,
    k: int,
    i: int,
)
    requires
        0 <= k < i <= h.len(),
        h[k].index < t,
        is_live(s[h[k].index as int]),
    ensures
        newest_live_at(h.skip(k), s, t, i - k) == newest_live_at(h, s, t, i),
    decreases i - k,
{
    if i - k == 1 {
        assert(h.skip(k)[0] == h[k]);
    } else {
        lemma_newest_live_at_skip(h, s, t, k, i - 1);
        assert(h.skip(k)[i - 1 - k] == h[i - 1]);
    }
}

/// `newest_live_at` only reads entries below `i`: histories that agree there
/// resolve alike.
pub proof fn lemma_newest_live_at_agree<V>(
    h1: Seq<HistoriedValue<V>>,
    h2: Seq<HistoriedValue<V>>,
    s: Seq<TransactionState>,
    t: int,
    i: int,
)
    requires
        i <= h1.len(),
        i <= h2.len(),
        forall|p: int| 0 <= p < i ==> h1[p] == h2[p],
    ensures
        newest_live_at(h1, s, t, i) == newest_live_at(h2, s, t, i),
    decreases i,
{
    if i > 0 {
        lemma_newest_live_at_agree(h1, h2, s, t, i - 1);
    }
}

/// If every entry from position `k` up fails the test, scanning the first `i`
/// entries is the same as scanning the first `k`.
pub proof fn lemma_newest_live_at_dead_above<V>(
    h: Seq<HistoriedValue<V>>,
    s: Seq<TransactionState>,
    t: int,
    k: int,
    i: int,
)
    requires
        0 <= k <= i <= h.len(),
        forall|p: int|
            k <= p < i ==> !((#[trigger] h[p].index) < t && is_live(s[h[p].index as int])),
    ensures
        newest_live_at(h, s, t, i) == newest_live_at(h, s, t, k),
    decreases i,
{
    if i > k {
        lemma_newest_live_at_dead_above(h, s, t, k, i - 1);
    }
}

} // verus!
