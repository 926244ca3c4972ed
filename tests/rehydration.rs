use upsert::codec::{encode_value, encoded_size};
use upsert::datum::{Datum, Row, UpsertError, UpsertValue};
use upsert::key::UpsertKey;
use upsert::operator::{rehydration_finished, UpsertConfig, UpsertOperator};
use upsert::snapshot::{
    previous_events, DataflowError, PreviousRecord, SnapshotError, SnapshotEvent, SnapshotMerge,
};
use upsert::spill::{backend_kind, AutoSpill, BackendKind};
use upsert::stage::UpsertInput;
use upsert::state::{InMemoryHashMap, PutEntry};
use upsert::upsert::OutputUpdate;

fn kv(k: i64, v: i64) -> Row {
    Row { datums: vec![Datum::Int64(k), Datum::Int64(v)] }
}

fn key(k: i64) -> UpsertKey {
    UpsertKey::from_key(Ok(&Row { datums: vec![Datum::Int64(k)] }))
}

fn ints(o: &OutputUpdate) -> (Vec<i64>, u64, i64) {
    let vals = match &o.value {
        Ok(r) => r
            .datums
            .iter()
            .map(|d| match d {
                Datum::Int64(i) => *i,
                _ => panic!("unexpected datum"),
            })
            .collect(),
        Err(_) => panic!("unexpected error value"),
    };
    (vals, o.time, o.diff)
}

fn sorted(out: &[OutputUpdate]) -> Vec<(Vec<i64>, u64, i64)> {
    let mut v: Vec<_> = out.iter().map(ints).collect();
    v.sort();
    v
}

fn prev(k: i64, v: i64, time: u64, diff: i64) -> PreviousRecord {
    PreviousRecord { value: Ok(kv(k, v)), time, diff }
}

fn config(wait: bool) -> UpsertConfig {
    UpsertConfig { wait_for_input_resumption: wait, shrink_upsert_unused_buffers_by_ratio: 0 }
}

fn row_value(got: &Option<UpsertValue>) -> Vec<i64> {
    match got {
        Some(Ok(r)) => r
            .datums
            .iter()
            .map(|d| match d {
                Datum::Int64(i) => *i,
                _ => panic!("unexpected datum"),
            })
            .collect(),
        _ => panic!("expected a row"),
    }
}

#[test]
fn rehydrated_value_is_retracted_after_resume() {
    let mut op = UpsertOperator::new(Some(5), config(false));
    assert!(op.is_rehydrating());
    assert!(op.wants_previous());
    let events = previous_events(vec![prev(1, 100, 0, 1)], &[0], Some(5));
    op.on_previous_data(events).unwrap();
    op.on_previous_progress(Some(5));
    assert!(!op.is_rehydrating());
    assert!(op.snapshot.is_consistent());
    op.complete_snapshot();
    let mut data = vec![UpsertInput {
        key: key(1),
        value: Some(Ok(kv(1, 200))),
        order: 0,
        time: 6,
        diff: 1,
    }];
    op.on_input_data(&mut data);
    let out = op.finish_rehydration();
    assert!(out.is_empty());
    assert_eq!(op.output_frontier, Some(5));
    let out = op.on_input_progress(Some(7));
    assert_eq!(sorted(&out), vec![(vec![1, 100], 6, -1), (vec![1, 200], 6, 1)]);
}

#[test]
fn previous_progress_moves_output_but_not_past_resume() {
    let mut op = UpsertOperator::new(Some(5), config(false));
    op.on_previous_progress(Some(3));
    assert_eq!(op.output_frontier, Some(3));
    op.on_previous_progress(Some(8));
    assert_eq!(op.output_frontier, Some(3));
    op.on_previous_progress(None);
    assert_eq!(op.output_frontier, Some(3));
    assert!(!op.wants_previous());
}

#[test]
fn waiting_for_input_keeps_rehydrating() {
    let mut op = UpsertOperator::new(Some(5), config(true));
    op.on_previous_progress(Some(5));
    assert!(op.is_rehydrating());
    let _ = op.on_input_progress(Some(6));
    assert!(!op.is_rehydrating());
}

#[test]
fn replay_keeps_upsert_errors_before_resume() {
    let records = vec![
        prev(1, 10, 0, 1),
        PreviousRecord { value: Err(DataflowError::Other), time: 0, diff: 1 },
        PreviousRecord { value: Err(DataflowError::Upsert(UpsertError::NullKey)), time: 1, diff: 1 },
        prev(2, 20, 9, 1),
    ];
    let events = previous_events(records, &[0], Some(5));
    assert_eq!(events.len(), 2);
    assert_eq!(events[0].key, key(1));
    assert_eq!(events[1].key, UpsertKey::from_key(Err(&UpsertError::NullKey)));
}

#[test]
fn retractions_cancel_during_rehydration() {
    let mut merge = SnapshotMerge::new();
    let events = previous_events(
        vec![prev(1, 10, 0, 1), prev(1, 11, 1, 1), prev(1, 10, 1, -1)],
        &[0],
        Some(5),
    );
    merge.merge_chunk(events).unwrap();
    assert!(merge.is_consistent());
    let mut state = InMemoryHashMap::new();
    merge.finish(&mut state);
    let got = state.multi_get(&vec![key(1)]);
    assert_eq!(row_value(&got[0].value), vec![1, 11]);
    assert_eq!(got[0].size, Some(encoded_size(&Ok(kv(1, 11)))));
}

#[test]
fn two_live_values_for_a_key_are_inconsistent() {
    let mut merge = SnapshotMerge::new();
    let events = previous_events(vec![prev(1, 10, 0, 1), prev(1, 11, 1, 1)], &[0], Some(5));
    merge.merge_chunk(events).unwrap();
    assert!(!merge.is_consistent());
}

#[test]
fn double_count_is_inconsistent() {
    let mut merge = SnapshotMerge::new();
    let events = previous_events(vec![prev(1, 10, 0, 2)], &[0], Some(5));
    merge.merge_chunk(events).unwrap();
    assert!(!merge.is_consistent());
}

#[test]
fn diff_overflow_is_reported() {
    let mut merge = SnapshotMerge::new();
    let ev = |d: i64| SnapshotEvent { key: key(1), value: Ok(kv(1, 10)), diff: d };
    merge.merge_chunk(vec![ev(i64::MAX)]).unwrap();
    assert_eq!(merge.merge_chunk(vec![ev(1)]), Err(SnapshotError::DiffOverflow));
    merge.merge_chunk(vec![ev(-i64::MAX), ev(1)]).unwrap();
    assert!(merge.is_consistent());
    let mut state = InMemoryHashMap::new();
    merge.finish(&mut state);
    assert_eq!(state.len(), 1);
}

#[test]
fn rehydration_finished_decisions() {
    assert!(!rehydration_finished(Some(5), Some(Some(4))));
    assert!(rehydration_finished(Some(5), Some(Some(5))));
    assert!(rehydration_finished(Some(5), Some(None)));
    assert!(rehydration_finished(Some(5), None));
    assert!(!rehydration_finished(None, Some(Some(100))));
}

fn sixty_byte_value(k: i64) -> UpsertValue {
    Ok(Row { datums: vec![Datum::Bytes(vec![k as u8; 50])] })
}

#[test]
fn auto_spill_moves_state_past_threshold() {
    assert_eq!(encoded_size(&sixty_byte_value(1)), 60);
    let mut spill = AutoSpill::new(100);
    let mut memory = InMemoryHashMap::new();
    let put = |k: i64| PutEntry { key: key(k), value: Some(sixty_byte_value(k)), previous_persisted_size: None };
    memory.multi_put(&vec![put(1)]);
    assert!(!spill.should_spill(&memory));
    memory.multi_put(&vec![put(2)]);
    assert_eq!(memory.bytes(), 120);
    assert!(spill.should_spill(&memory));
    let handed = spill.spill(&memory);
    assert!(spill.spilled);
    assert!(!spill.should_spill(&memory));
    let mut other = InMemoryHashMap::new();
    other.multi_put(&handed);
    assert_eq!(other.bytes(), 120);
    let got = other.multi_get(&vec![key(1), key(2)]);
    for (i, g) in got.iter().enumerate() {
        match &g.value {
            Some(Ok(r)) => match &r.datums[0] {
                Datum::Bytes(b) => assert_eq!(b, &vec![(i + 1) as u8; 50]),
                _ => panic!("unexpected datum"),
            },
            _ => panic!("expected a row"),
        }
    }
}

#[test]
fn encoding_is_tagged_little_endian() {
    let v: UpsertValue = Ok(Row { datums: vec![Datum::Null, Datum::True, Datum::Int64(258)] });
    assert_eq!(encode_value(&v), vec![0, 0, 2, 3, 2, 1, 0, 0, 0, 0, 0, 0]);
    let e: UpsertValue = Err(UpsertError::KeyDecode { raw: vec![9, 8] });
    assert_eq!(encode_value(&e), vec![2, 9, 8]);
    assert_eq!(encode_value(&Err(UpsertError::NullKey)), vec![3]);
    let b: UpsertValue = Ok(Row { datums: vec![Datum::Bytes(vec![7])] });
    assert_eq!(encode_value(&b), vec![0, 4, 1, 0, 0, 0, 0, 0, 0, 0, 7]);
    assert_eq!(encoded_size(&b), 11);
}

#[test]
fn deletes_free_state_entries() {
    let mut state = InMemoryHashMap::new();
    state.multi_put(&vec![
        PutEntry { key: key(1), value: Some(Ok(kv(1, 1))), previous_persisted_size: None },
        PutEntry { key: key(2), value: Some(Ok(kv(2, 2))), previous_persisted_size: None },
        PutEntry { key: key(3), value: Some(Ok(kv(3, 3))), previous_persisted_size: None },
        PutEntry { key: key(1), value: None, previous_persisted_size: None },
    ]);
    assert_eq!(state.len(), 2);
    assert_eq!(state.bytes(), 2 * encoded_size(&Ok(kv(2, 2))));
    let got = state.multi_get(&vec![key(1), key(2), key(3)]);
    assert!(got[0].value.is_none());
    assert_eq!(row_value(&got[1].value), vec![2, 2]);
    assert_eq!(row_value(&got[2].value), vec![3, 3]);
}

#[test]
fn backend_choice_follows_configuration() {
    assert_eq!(backend_kind(false, true, 10), BackendKind::Memory);
    assert_eq!(backend_kind(true, false, 10), BackendKind::Disk);
    assert_eq!(backend_kind(true, true, 10), BackendKind::AutoSpill { threshold: 10 });
}
