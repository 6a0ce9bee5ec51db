use historied_data::{find_previous_tx_start, History, HistoriedValue, States, TransactionState};

fn entry(value: u64, index: usize) -> HistoriedValue<u64> {
    HistoriedValue::from((value, index))
}

#[test]
fn fresh_stack_first_write() {
    // A fresh stack has one pending layer and nothing committed; the first
    // write lands at layer 0 and is immediately visible.
    let states = States::default();
    assert_eq!(states.as_ref(), &[TransactionState::Pending]);
    assert_eq!(states.committed(), 0);
    let mut history: History<u64> = History::default();
    history.set(states.as_ref_mut(), 10);
    assert_eq!(history.len(), 1);
    assert_eq!(history.get(states.as_ref()), Some(&10));
    // The live entry is tagged to layer 0.
    assert_eq!(history.get_mut(states.as_ref_mut()), Some(0));
}

#[test]
fn transaction_write_and_discard() {
    let mut states = States::default();
    let mut history: History<u64> = History::default();
    history.set(states.as_ref_mut(), 10);
    states.start_transaction();
    assert_eq!(
        states.as_ref(),
        &[TransactionState::Pending, TransactionState::TxPending]
    );
    history.set(states.as_ref_mut(), 20);
    assert_eq!(history.len(), 2);
    assert_eq!(history.get(states.as_ref()), Some(&20));
    states.discard_transaction();
    assert_eq!(
        states.as_ref(),
        &[
            TransactionState::Pending,
            TransactionState::Dropped,
            TransactionState::Pending,
        ]
    );
    // Rollback law: the value visible before the frame opened is back.
    assert_eq!(history.get(states.as_ref()), Some(&10));
}

#[test]
fn nested_commits_fold_writes() {
    let mut states = States::default();
    let mut history: History<u64> = History::default();
    states.start_transaction();
    history.set(states.as_ref_mut(), 1);
    states.start_transaction();
    history.set(states.as_ref_mut(), 2);
    states.commit_transaction();
    states.commit_transaction();
    // Fold correctness: both frames folded, the innermost write survives as
    // ordinary data.
    assert_eq!(history.get(states.as_ref()), Some(&2));
    // The next compacting access collapses the two transactional writes.
    assert_eq!(history.get_mut(states.as_ref_mut()), Some(1));
    assert_eq!(history.len(), 1);
    assert_eq!(history.get(states.as_ref()), Some(&2));
}

#[test]
fn empty_history_is_absent_everywhere() {
    let states = States::default();
    let history: History<u64> = History::default();
    assert_eq!(history.len(), 0);
    assert_eq!(history.get(states.as_ref()), None);
    assert_eq!(
        history.clone().into_pending(states.as_ref()),
        None
    );
    assert_eq!(
        history
            .clone()
            .into_committed(states.as_ref(), states.committed()),
        None
    );
    let mut h = history.clone();
    assert_eq!(h.get_mut(states.as_ref_mut()), None);
    assert_eq!(h.len(), 0);
    let mut h = history;
    assert_eq!(h.get_mut_pruning(states.as_ref_mut(), true), None);
    assert_eq!(h.len(), 0);
}

#[test]
fn get_is_pure() {
    let mut states = States::default();
    let mut history: History<u64> = History::default();
    history.set(states.as_ref_mut(), 7);
    states.start_transaction();
    history.set(states.as_ref_mut(), 8);
    states.discard_transaction();
    let first = history.get(states.as_ref()).copied();
    let second = history.get(states.as_ref()).copied();
    assert_eq!(first, second);
    assert_eq!(first, Some(7));
}

#[test]
fn overwrite_within_one_layer_keeps_one_entry() {
    let states = States::default();
    let mut history: History<u64> = History::default();
    history.set(states.as_ref_mut(), 1);
    history.set(states.as_ref_mut(), 2);
    history.set(states.as_ref_mut(), 3);
    // Redundant writes within one still-open layer collapse in place.
    assert_eq!(history.len(), 1);
    assert_eq!(history.get(states.as_ref()), Some(&3));
}

#[test]
fn overwrite_within_open_frame() {
    let mut states = States::default();
    let mut history: History<u64> = History::default();
    states.start_transaction();
    history.set(states.as_ref_mut(), 1);
    history.set(states.as_ref_mut(), 2);
    assert_eq!(history.len(), 1);
    assert_eq!(history.get(states.as_ref()), Some(&2));
    states.discard_transaction();
    assert_eq!(history.get(states.as_ref()), None);
}

#[test]
fn prospective_empty_when_boundary_at_top() {
    let states = States::test_vector(vec![TransactionState::Pending], 1);
    let history = History::from_iter(vec![entry(1, 0)]);
    assert_eq!(
        history.get_prospective(states.as_ref(), states.committed()),
        None
    );
    assert_eq!(history.get(states.as_ref()), Some(&1));
}

#[test]
fn compaction_keeps_one_entry_per_open_scope() {
    let mut states = States::default();
    let mut history: History<u64> = History::default();
    history.set(states.as_ref_mut(), 1);
    states.start_transaction();
    history.set(states.as_ref_mut(), 2);
    states.start_transaction();
    history.set(states.as_ref_mut(), 3);
    // Three entries, three scopes: the base layer and two open frames.
    assert_eq!(history.len(), 3);
    let r = history.get_mut(states.as_ref_mut());
    assert_eq!(r, Some(2));
    assert_eq!(history.len(), 3);
    // Fold the innermost frame into the outer one: its write becomes
    // redundant with the outer frame's own write on the next compaction.
    states.commit_transaction();
    history.get_mut(states.as_ref_mut());
    assert_eq!(history.len(), 2);
    assert_eq!(history.get(states.as_ref()), Some(&3));
    // The outer frame still rolls back to the base value.
    states.discard_transaction();
    assert_eq!(history.get(states.as_ref()), Some(&1));
}

#[test]
fn rollback_after_nested_discard() {
    let mut states = States::default();
    let mut history: History<u64> = History::default();
    history.set(states.as_ref_mut(), 5);
    states.start_transaction();
    history.set(states.as_ref_mut(), 6);
    states.start_transaction();
    history.set(states.as_ref_mut(), 7);
    states.discard_transaction();
    assert_eq!(history.get(states.as_ref()), Some(&6));
    states.discard_transaction();
    assert_eq!(history.get(states.as_ref()), Some(&5));
}

#[test]
fn committed_boundary_reads() {
    let mut states = States::default();
    let mut history: History<u64> = History::default();
    history.set(states.as_ref_mut(), 10);
    states.commit_prospective();
    let committed = states.committed();
    assert_eq!(committed, 1);
    history.set(states.as_ref_mut(), 20);
    assert_eq!(history.get(states.as_ref()), Some(&20));
    assert_eq!(
        history
            .clone()
            .into_committed(states.as_ref(), committed),
        Some(10)
    );
    assert_eq!(
        history.get_committed(states.as_ref(), committed),
        Some(&10)
    );
    assert_eq!(history.clone().into_pending(states.as_ref()), Some(20));
}

#[test]
fn prospective_reads_by_position() {
    let layers = vec![
        TransactionState::Pending,
        TransactionState::Pending,
        TransactionState::Dropped,
    ];
    let states = States::test_vector(layers, 1);
    let history = History::from_iter(vec![entry(1, 0), entry(2, 1), entry(3, 2)]);
    // Scans positions from the committed boundary up; the newest entry is
    // dropped, the one below it is live.
    assert_eq!(
        history.get_prospective(states.as_ref(), states.committed()),
        Some(&2)
    );
    assert_eq!(history.get(states.as_ref()), Some(&2));
}

#[test]
fn discard_prospective_abandons_uncommitted_work() {
    let mut states = States::default();
    let mut history: History<u64> = History::default();
    history.set(states.as_ref_mut(), 1);
    states.commit_prospective();
    history.set(states.as_ref_mut(), 2);
    states.discard_prospective();
    assert_eq!(history.get(states.as_ref()), Some(&1));
}

#[test]
fn pruning_is_irreversible_under_rollback() {
    // Documented limitation: eager pruning removes finalized entries for
    // good; a later unchecked rollback of the committed boundary cannot
    // resurrect them.
    let mut states = States::default();
    let mut history: History<u64> = History::default();
    history.set(states.as_ref_mut(), 10);
    states.commit_prospective();
    history.set(states.as_ref_mut(), 20);
    states.commit_prospective();
    assert_eq!(history.len(), 2);
    let r = history.get_mut_pruning(states.as_ref_mut(), true);
    assert_eq!(r, Some(1));
    // The entry holding 10 was physically removed.
    assert_eq!(history.len(), 1);
    // Move the boundary back before the pruned entry's layer.
    states.unchecked_rollback_committed(1);
    // The pre-commit value is not recovered: this is expected behaviour.
    assert_eq!(history.get(states.as_ref()), None);
}

#[test]
fn pruning_flag_clear_matches_plain_compaction() {
    let mut states = States::default();
    let mut history: History<u64> = History::default();
    let mut twin: History<u64> = History::default();
    history.set(states.as_ref_mut(), 10);
    twin.set(states.as_ref_mut(), 10);
    states.commit_prospective();
    history.set(states.as_ref_mut(), 20);
    twin.set(states.as_ref_mut(), 20);
    states.commit_prospective();
    let a = history.get_mut(states.as_ref_mut());
    let b = twin.get_mut_pruning(states.as_ref_mut(), false);
    assert_eq!(a, b);
    assert_eq!(history.len(), twin.len());
    assert_eq!(history.len(), 2);
    assert_eq!(
        history.get(states.as_ref()),
        twin.get(states.as_ref())
    );
}

#[test]
fn find_previous_tx_start_scans_to_committed() {
    let layers = vec![
        TransactionState::Pending,
        TransactionState::TxPending,
        TransactionState::Pending,
        TransactionState::Pending,
    ];
    let states = States::test_vector(layers, 0);
    let view = states.as_ref_mut();
    assert_eq!(find_previous_tx_start(view, 4), 1);
    assert_eq!(find_previous_tx_start(view, 2), 1);
    // The scan is exclusive of `from` and stops at the committed boundary.
    assert_eq!(find_previous_tx_start(view, 1), 0);
    assert_eq!(find_previous_tx_start(view, 0), 0);
}

#[test]
fn find_previous_tx_start_does_not_skip_dropped_layers() {
    // The active behaviour scans plain layer states only: a dropped layer is
    // neither a boundary nor skipped over specially.
    let layers = vec![
        TransactionState::Pending,
        TransactionState::TxPending,
        TransactionState::Dropped,
        TransactionState::Pending,
    ];
    let states = States::test_vector(layers, 2);
    let view = states.as_ref_mut();
    // Below the committed boundary nothing is found, even though a
    // transaction start exists further down.
    assert_eq!(find_previous_tx_start(view, 4), 2);
}

#[test]
fn entry_helpers() {
    let e = entry(9, 4);
    assert_eq!(e.value, 9);
    assert_eq!(e.index, 4);
    let r = e.as_ref();
    assert_eq!(*r.value, 9);
    assert_eq!(r.index, 4);
}

#[test]
fn push_unchecked_appends() {
    let states = States::default();
    let mut history: History<u64> = History::default();
    history.push_unchecked(entry(3, 0));
    assert_eq!(history.len(), 1);
    assert_eq!(history.get(states.as_ref()), Some(&3));
}

#[test]
fn dropped_entries_are_swept_lazily() {
    // Entries under dropped layers survive until a compacting call touches
    // the key, then the dropped tail is trimmed.
    let mut states = States::default();
    let mut history: History<u64> = History::default();
    history.set(states.as_ref_mut(), 1);
    states.start_transaction();
    history.set(states.as_ref_mut(), 2);
    states.discard_transaction();
    assert_eq!(history.len(), 2);
    assert_eq!(history.get_mut(states.as_ref_mut()), Some(0));
    assert_eq!(history.len(), 1);
    assert_eq!(history.get(states.as_ref()), Some(&1));
}

#[test]
fn no_live_entry_clears_history() {
    let mut states = States::default();
    let mut history: History<u64> = History::default();
    states.start_transaction();
    history.set(states.as_ref_mut(), 2);
    states.discard_transaction();
    assert_eq!(history.get(states.as_ref()), None);
    assert_eq!(history.get_mut(states.as_ref_mut()), None);
    assert_eq!(history.len(), 0);
}

#[test]
fn unchecked_rollback_without_pruning_recovers() {
    // Without eager pruning the same rollback does recover the committed
    // value: only pruning makes it unrecoverable.
    let mut states = States::default();
    let mut history: History<u64> = History::default();
    history.set(states.as_ref_mut(), 10);
    states.commit_prospective();
    history.set(states.as_ref_mut(), 20);
    states.commit_prospective();
    history.get_mut(states.as_ref_mut());
    assert_eq!(history.len(), 2);
    states.unchecked_rollback_committed(1);
    assert_eq!(history.get(states.as_ref()), Some(&10));
}
