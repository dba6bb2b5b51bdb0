use aether_vm::aggregate::aggregate_window;
use aether_vm::flow::{create_stream, get_stream, FlowStream, StreamEvent, StreamRegistry};
use aether_vm::value::Value;

fn ints(w: &Vec<aether_vm::flow::StreamEvent>) -> Vec<i64> {
    w.iter()
        .map(|e| match e.value {
            Value::Int(i) => i,
            _ => -1,
        })
        .collect()
}

fn stream_of(values: &[i64], cap: usize) -> FlowStream {
    let mut s = FlowStream::new(1, "s".to_string(), cap);
    for (i, v) in values.iter().enumerate() {
        s.emit_at(Value::Int(*v), 1000 + i as u64);
    }
    s
}

#[test]
fn zero_capacity_means_1024() {
    let s = FlowStream::new(3, "t".to_string(), 0);
    assert_eq!(s.capacity, 1024);
    assert_eq!(s.name, "t");
    assert!(s.events.is_empty());
}

#[test]
fn emit_assigns_ids_and_evicts_oldest() {
    let mut s = FlowStream::new(1, "s".to_string(), 2);
    assert_eq!(s.emit(Value::Int(10), Some(5)), 1);
    assert_eq!(s.emit(Value::Int(20), Some(6)), 2);
    assert_eq!(s.emit(Value::Int(30), Some(7)), 3);
    assert_eq!(s.events.len(), 2);
    assert_eq!(ints(&s.events), vec![20, 30]);
    assert_eq!(s.events[1].id, 3);
    assert_eq!(s.events[1].timestamp_ms, 7);
}

#[test]
fn emit_without_timestamp_uses_clock() {
    let mut s = FlowStream::new(1, "s".to_string(), 4);
    s.emit(Value::Nil, None);
    assert!(s.events[0].timestamp_ms > 1_600_000_000_000);
}

#[test]
fn batch_timestamps_step_by_ten() {
    let mut s = FlowStream::new(1, "s".to_string(), 10);
    let n = s.emit_batch(vec![Value::Int(1), Value::Int(2), Value::Int(3)], Some(100));
    assert_eq!(n, 3);
    let ts: Vec<u64> = s.events.iter().map(|e| e.timestamp_ms).collect();
    assert_eq!(ts, vec![100, 110, 120]);
    let ids: Vec<u64> = s.events.iter().map(|e| e.id).collect();
    assert_eq!(ids, vec![1, 2, 3]);
}

#[test]
fn tumbling_windows() {
    let s = stream_of(&[1, 2, 3, 4, 5], 10);
    let w = s.window_tumbling_count(2);
    let got: Vec<Vec<i64>> = w.iter().map(ints).collect();
    assert_eq!(got, vec![vec![1, 2], vec![3, 4], vec![5]]);
    assert!(s.window_tumbling_count(0).is_empty());
    assert!(FlowStream::new(1, "e".to_string(), 5).window_tumbling_count(3).is_empty());
}

#[test]
fn sliding_windows() {
    let s = stream_of(&[1, 2, 3, 4, 5], 10);
    let got: Vec<Vec<i64>> = s.window_sliding_count(2, 2).iter().map(ints).collect();
    assert_eq!(got, vec![vec![1, 2], vec![3, 4]]);
    let got: Vec<Vec<i64>> = s.window_sliding_count(3, 1).iter().map(ints).collect();
    assert_eq!(got, vec![vec![1, 2, 3], vec![2, 3, 4], vec![3, 4, 5]]);
    let got: Vec<Vec<i64>> = s.window_sliding_count(8, 1).iter().map(ints).collect();
    assert_eq!(got, vec![vec![1, 2, 3, 4, 5]]);
    assert!(s.window_sliding_count(2, 0).is_empty());
}

#[test]
fn session_windows_split_on_gaps() {
    let mut s = FlowStream::new(1, "s".to_string(), 10);
    s.emit_at(Value::Int(1), 100);
    s.emit_at(Value::Int(2), 150);
    s.emit_at(Value::Int(3), 400);
    s.emit_at(Value::Int(4), 420);
    s.emit_at(Value::Int(5), 1000);
    let got: Vec<Vec<i64>> = s.window_session(100).iter().map(ints).collect();
    assert_eq!(got, vec![vec![1, 2], vec![3, 4], vec![5]]);
    let got: Vec<Vec<i64>> = s.window_session(250).iter().map(ints).collect();
    assert_eq!(got, vec![vec![1, 2, 3, 4], vec![5]]);
    assert!(FlowStream::new(1, "e".to_string(), 5).window_session(10).is_empty());
}

#[test]
fn stream_registry_lookup() {
    let mut reg = StreamRegistry::new();
    assert_eq!(create_stream(&mut reg, "a", 0), 1);
    assert_eq!(create_stream(&mut reg, "b", 8), 2);
    let s = get_stream(&reg, 2).ok().unwrap();
    assert_eq!(s.name, "b");
    assert_eq!(s.capacity, 8);
    assert_eq!(get_stream(&reg, 9).err(), Some("AetherFlow: Stream 9 not found".to_string()));
}

#[test]
fn window_aggregate_count_first_last_values() {
    let win = vec![
        StreamEvent { id: 1, timestamp_ms: 0, value: Value::Int(4) },
        StreamEvent { id: 2, timestamp_ms: 5, value: Value::Int(9) },
    ];
    assert!(matches!(aggregate_window(&win, "COUNT", Value::Nil), Value::Int(2)));
    assert!(matches!(aggregate_window(&win, "first", Value::Nil), Value::Int(4)));
    assert!(matches!(aggregate_window(&win, "Last", Value::Nil), Value::Int(9)));
    assert!(matches!(aggregate_window(&win, "sum", Value::Int(13)), Value::Int(13)));
    match aggregate_window(&win, "values", Value::Nil) {
        Value::Array(v) => assert_eq!(v.len(), 2),
        _ => panic!("expected the values"),
    }
    assert!(matches!(aggregate_window(&Vec::new(), "count", Value::Nil), Value::Nil));
}
