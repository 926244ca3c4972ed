use upsert::codec::encoded_size;
use upsert::datum::{Datum, Row, UpsertError, UpsertValue};
use upsert::health::{state_error_update, HealthStatus};
use upsert::key::UpsertKey;
use upsert::operator::{UpsertConfig, UpsertOperator};
use upsert::stage::{split_ready, stage_input, StagedUpdate, UpsertInput};
use upsert::state::{InMemoryHashMap, PutEntry};
use upsert::upsert::{upsert_ready, OutputUpdate};

fn row(vals: &[i64]) -> Row {
    Row { datums: vals.iter().map(|v| Datum::Int64(*v)).collect() }
}

fn key(k: i64) -> UpsertKey {
    UpsertKey::from_key(Ok(&row(&[k])))
}

fn val(v: i64) -> Option<UpsertValue> {
    Some(Ok(row(&[v])))
}

fn put(k: i64, v: i64, order: u64, time: u64) -> UpsertInput {
    UpsertInput { key: key(k), value: val(v), order, time, diff: 1 }
}

fn del(k: i64, order: u64, time: u64) -> UpsertInput {
    UpsertInput { key: key(k), value: None, order, time, diff: 1 }
}

fn ints(o: &OutputUpdate) -> (Vec<i64>, u64, i64) {
    let vals = match &o.value {
        Ok(r) => r
            .datums
            .iter()
            .map(|d| match d {
                Datum::Int64(i) => *i,
                _ => panic!("unexpected datum"),
            })
            .collect(),
        Err(_) => panic!("unexpected error value"),
    };
    (vals, o.time, o.diff)
}

fn sorted(out: &[OutputUpdate]) -> Vec<(Vec<i64>, u64, i64)> {
    let mut v: Vec<_> = out.iter().map(ints).collect();
    v.sort();
    v
}

fn config() -> UpsertConfig {
    UpsertConfig { wait_for_input_resumption: false, shrink_upsert_unused_buffers_by_ratio: 0 }
}

fn steady(resume: u64) -> UpsertOperator {
    let mut op = UpsertOperator::new(Some(resume), config());
    op.on_previous_progress(Some(resume));
    assert!(!op.is_rehydrating());
    op
}

#[test]
fn same_time_commands_keep_highest_order() {
    let mut op = steady(0);
    let mut data = vec![put(1, 10, 1, 1), put(1, 20, 2, 1)];
    op.on_input_data(&mut data);
    let out = op.on_input_progress(Some(2));
    assert_eq!(sorted(&out), vec![(vec![20], 1, 1)]);
}

#[test]
fn same_time_commands_keep_highest_order_staged_in_reverse() {
    let mut op = steady(0);
    let mut data = vec![put(1, 20, 2, 1), put(1, 10, 1, 1)];
    op.on_input_data(&mut data);
    let out = op.on_input_progress(Some(2));
    assert_eq!(sorted(&out), vec![(vec![20], 1, 1)]);
}

#[test]
fn put_put_delete_over_three_times() {
    let mut op = steady(0);
    let mut data = vec![put(1, 10, 1, 1), put(1, 20, 2, 2), del(1, 3, 3)];
    op.on_input_data(&mut data);
    let out = op.on_input_progress(Some(4));
    assert_eq!(
        sorted(&out),
        vec![(vec![10], 1, 1), (vec![10], 2, -1), (vec![20], 2, 1), (vec![20], 3, -1)]
    );
    assert_eq!(op.state.len(), 0);
}

#[test]
fn two_keys_one_time_fill_the_state() {
    let mut op = steady(0);
    let mut data = vec![put(1, 10, 1, 1), put(2, 20, 2, 1)];
    op.on_input_data(&mut data);
    let out = op.on_input_progress(Some(2));
    assert_eq!(sorted(&out), vec![(vec![10], 1, 1), (vec![20], 1, 1)]);
    assert_eq!(op.state.len(), 2);
    let got = op.state.multi_get(&vec![key(1), key(2), key(3)]);
    assert_eq!(got.len(), 3);
    assert!(matches!(&got[0].value, Some(Ok(r)) if matches!(r.datums[0], Datum::Int64(10))));
    assert!(matches!(&got[1].value, Some(Ok(r)) if matches!(r.datums[0], Datum::Int64(20))));
    assert!(got[2].value.is_none() && got[2].size.is_none());
}

#[test]
fn open_times_stay_staged() {
    let mut op = steady(0);
    let mut data = vec![put(1, 10, 1, 1), put(1, 20, 2, 5)];
    op.on_input_data(&mut data);
    let out = op.on_input_progress(Some(3));
    assert_eq!(sorted(&out), vec![(vec![10], 1, 1)]);
    assert_eq!(op.stash.len(), 1);
    assert_eq!(op.output_frontier, Some(3));
    let out = op.on_input_progress(Some(6));
    assert_eq!(sorted(&out), vec![(vec![10], 5, -1), (vec![20], 5, 1)]);
}

#[test]
fn progress_before_resume_is_ignored() {
    let mut op = steady(5);
    let mut data = vec![put(1, 10, 1, 6)];
    op.on_input_data(&mut data);
    let out = op.on_input_progress(Some(3));
    assert!(out.is_empty());
    assert_eq!(op.stash.len(), 1);
    assert_eq!(op.input_upper, Some(0));
}

#[test]
fn delete_of_absent_key_emits_nothing() {
    let mut op = steady(0);
    let mut data = vec![del(7, 1, 1)];
    op.on_input_data(&mut data);
    let out = op.on_input_progress(Some(2));
    assert!(out.is_empty());
}

#[test]
fn staging_drops_updates_before_resume() {
    let mut stash: Vec<StagedUpdate> = Vec::new();
    let mut data = vec![put(1, 10, 1, 2), put(1, 11, 2, 5), put(2, 12, 3, 7)];
    stage_input(&mut stash, &mut data, Some(0), Some(5), 0);
    assert!(data.is_empty());
    let times: Vec<u64> = stash.iter().map(|s| s.time).collect();
    assert_eq!(times, vec![5, 7]);
}

#[test]
fn staging_keeps_everything_once_input_is_past_resume() {
    let mut stash: Vec<StagedUpdate> = Vec::new();
    let mut data = vec![put(1, 10, 1, 2), put(1, 11, 2, 5)];
    stage_input(&mut stash, &mut data, Some(6), Some(5), 2);
    let times: Vec<u64> = stash.iter().map(|s| s.time).collect();
    assert_eq!(times, vec![2, 5]);
}

#[test]
fn split_ready_takes_closed_times_in_order() {
    let mut stash: Vec<StagedUpdate> = Vec::new();
    let mut data = vec![put(1, 10, 1, 4), put(1, 11, 2, 1), put(2, 12, 3, 9)];
    stage_input(&mut stash, &mut data, Some(0), Some(0), 0);
    let ready = split_ready(&mut stash, Some(5));
    let times: Vec<u64> = ready.iter().map(|s| s.time).collect();
    assert_eq!(times, vec![4, 1]);
    assert_eq!(stash.len(), 1);
    assert_eq!(stash[0].time, 9);
    let all = split_ready(&mut stash, None);
    assert_eq!(all.len(), 1);
}

#[test]
fn upsert_ready_on_a_state() {
    let mut state = InMemoryHashMap::new();
    state.multi_put(&vec![PutEntry { key: key(1), value: val(10), previous_persisted_size: None }]);
    let ready = vec![StagedUpdate { time: 3, key: key(1), order: 1, value: val(11) }];
    let (out, io) = upsert_ready(&mut state, ready);
    assert_eq!(sorted(&out), vec![(vec![10], 3, -1), (vec![11], 3, 1)]);
    assert_eq!(state.len(), 1);
    assert_eq!(io.writes.len(), 1);
    assert_eq!(io.writes[0].previous_persisted_size, Some(encoded_size(&Ok(row(&[10])))));
}

#[test]
fn one_read_and_one_write_per_frontier_step() {
    let mut state = InMemoryHashMap::new();
    let ready = vec![
        StagedUpdate { time: 1, key: key(1), order: 1, value: val(10) },
        StagedUpdate { time: 1, key: key(2), order: 2, value: val(20) },
        StagedUpdate { time: 1, key: key(1), order: 3, value: val(11) },
    ];
    let (out, io) = upsert_ready(&mut state, ready);
    assert_eq!(sorted(&out), vec![(vec![11], 1, 1), (vec![20], 1, 1)]);
    assert_eq!(io.reads, vec![key(1), key(2)]);
    assert_eq!(io.writes.len(), 2);
    assert_eq!(io.writes[0].key, key(1));
    assert_eq!(io.writes[1].key, key(2));
    assert!(io.writes.iter().all(|w| w.previous_persisted_size.is_none()));
    assert!(matches!(&io.writes[0].value, Some(Ok(r)) if matches!(r.datums[0], Datum::Int64(11))));
}

#[test]
fn equal_orders_keep_the_smaller_value_in_either_arrival_order() {
    let run = |first: i64, second: i64| {
        let mut state = InMemoryHashMap::new();
        let ready = vec![
            StagedUpdate { time: 1, key: key(1), order: 4, value: val(first) },
            StagedUpdate { time: 1, key: key(1), order: 4, value: val(second) },
        ];
        sorted(&upsert_ready(&mut state, ready).0)
    };
    assert_eq!(run(1, 2), vec![(vec![1], 1, 1)]);
    assert_eq!(run(2, 1), vec![(vec![1], 1, 1)]);
}

#[test]
fn equal_orders_prefer_a_deletion() {
    let mut state = InMemoryHashMap::new();
    state.multi_put(&vec![PutEntry { key: key(1), value: val(10), previous_persisted_size: None }]);
    let ready = vec![
        StagedUpdate { time: 2, key: key(1), order: 4, value: val(5) },
        StagedUpdate { time: 2, key: key(1), order: 4, value: None },
    ];
    let (out, _) = upsert_ready(&mut state, ready);
    assert_eq!(sorted(&out), vec![(vec![10], 2, -1)]);
    assert_eq!(state.len(), 0);
}

#[test]
fn same_input_twice_gives_same_output() {
    let run = || {
        let mut op = steady(0);
        let mut data = vec![put(1, 10, 1, 1), put(2, 5, 2, 1), put(1, 11, 3, 2), del(2, 4, 3)];
        op.on_input_data(&mut data);
        sorted(&op.on_input_progress(Some(9)))
    };
    assert_eq!(run(), run());
}

#[test]
fn interleaving_of_equal_time_keys_does_not_change_output() {
    let run = |data: Vec<UpsertInput>| {
        let mut op = steady(0);
        let mut data = data;
        op.on_input_data(&mut data);
        sorted(&op.on_input_progress(Some(9)))
    };
    let a = run(vec![put(1, 10, 1, 1), put(2, 20, 2, 1), put(1, 11, 3, 1)]);
    let b = run(vec![put(2, 20, 2, 1), put(1, 11, 3, 1), put(1, 10, 1, 1)]);
    assert_eq!(a, b);
}

#[test]
fn state_error_halts_with_context() {
    let u = state_error_update("Failed to update records in state", "disk full");
    assert!(u.should_halt);
    match u.update {
        HealthStatus::StalledWithError { error, hint } => {
            assert_eq!(error, "Failed to update records in state: disk full");
            assert!(hint.is_none());
        }
        _ => panic!("expected a stalled status"),
    }
}

#[test]
fn fingerprints_differ_by_key_and_error_kind() {
    assert_eq!(key(1), key(1));
    assert_ne!(key(1), key(2));
    let null = UpsertKey::from_key(Err(&UpsertError::NullKey));
    let raw = UpsertKey::from_key(Err(&UpsertError::KeyDecode { raw: vec![] }));
    assert_ne!(null, raw);
    let value_err = UpsertKey::from_key(Err(&UpsertError::Value { for_key: row(&[1]) }));
    assert_eq!(value_err, key(1));
    assert_ne!(key(1), UpsertKey::from_key(Ok(&row(&[1, 1]))));
}

#[test]
fn fingerprint_from_value_selects_key_columns() {
    let value = row(&[7, 1, 9]);
    assert_eq!(UpsertKey::from_value(Ok(&value), &[1]), key(1));
    assert_eq!(UpsertKey::from_value(Ok(&value), &[0, 2]), UpsertKey::from_key(Ok(&row(&[7, 9]))));
    assert_eq!(
        UpsertKey::from_value(Err(&UpsertError::NullKey), &[0]),
        UpsertKey::from_key(Err(&UpsertError::NullKey))
    );
}

#[test]
fn fingerprint_is_sha256_of_encoding() {
    // tag 0 (datums), no datums: the digest of the single byte 0x00
    let empty = UpsertKey::from_key(Ok(&Row { datums: vec![] }));
    let expected: [u8; 4] = [0x6e, 0x34, 0x0b, 0x9c];
    assert_eq!(&empty.0[..4], &expected[..]);
}

#[test]
fn hashed_is_stable() {
    assert_eq!(key(3).hashed(), key(3).hashed());
    assert_ne!(key(3).hashed(), key(4).hashed());
}
