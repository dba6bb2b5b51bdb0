use aether_vm::actor::{ActorStatus, ActorSystem};
use aether_vm::value::Value;

fn payload_int(v: &Value) -> i64 {
    match v {
        Value::Int(i) => *i,
        _ => -1,
    }
}

#[test]
fn spawn_names_and_lookup() {
    let mut sys = ActorSystem::new();
    let a = sys.spawn(Some("worker".to_string()), Value::Int(0));
    let b = sys.spawn(None, Value::Nil);
    assert_eq!((a, b), (1, 2));
    assert_eq!(sys.lookup(&"worker".to_string()), Some(1));
    assert_eq!(sys.lookup(&"actor-2".to_string()), Some(2));
    assert_eq!(sys.lookup(&"ghost".to_string()), None);
    assert_eq!(sys.count(), 2);
    assert_eq!(sys.actors[0].max_retries, 3);
    assert_eq!(sys.actors[0].strategy, "one_for_one");
    assert_eq!(sys.status_text(1), "running");
    assert_eq!(sys.status_text(9), "not_found");
}

#[test]
fn mailbox_is_first_in_first_out() {
    let mut sys = ActorSystem::new();
    let a = sys.spawn(Some("q".to_string()), Value::Nil);
    assert!(sys.send(a, Value::Int(1)));
    assert!(sys.send(a, Value::Int(2)));
    let m1 = sys.try_recv(a).ok().unwrap().unwrap();
    let m2 = sys.try_recv(a).ok().unwrap().unwrap();
    assert_eq!((payload_int(&m1.payload), payload_int(&m2.payload)), (1, 2));
    assert!(m1.reply_to.is_none());
    assert!(sys.try_recv(a).ok().unwrap().is_none());
    assert_eq!(sys.try_recv(42).err(), Some("Actor 42 not found".to_string()));
}

#[test]
fn stopped_actors_refuse_messages() {
    let mut sys = ActorSystem::new();
    let a = sys.spawn(None, Value::Nil);
    assert!(sys.stop(a));
    assert_eq!(sys.actors[0].status, ActorStatus::Stopped);
    assert!(!sys.send(a, Value::Int(1)));
    assert!(sys.actors[0].mailbox.is_empty());
    assert_eq!(sys.ask(a, Value::Int(1)).err(), Some("Actor 1 is not in Running state".to_string()));
    assert_eq!(sys.ask(7, Value::Int(1)).err(), Some("Actor 7 not found".to_string()));
    assert!(!sys.send(7, Value::Nil));
}

#[test]
fn ask_posts_with_a_reply_channel() {
    let mut sys = ActorSystem::new();
    let a = sys.spawn(None, Value::Nil);
    let reply = sys.ask(a, Value::Int(5)).ok().unwrap();
    assert_eq!(reply, 2);
    assert_eq!(sys.next_id, 3);
    let m = sys.try_recv(a).ok().unwrap().unwrap();
    assert_eq!(m.reply_to, Some(2));
}

#[test]
fn failure_and_restart() {
    let mut sys = ActorSystem::new();
    let a = sys.spawn(None, Value::Nil);
    sys.send(a, Value::Int(1));
    assert!(sys.fail(a));
    assert_eq!(sys.status_text(a), "failed");
    assert_eq!(sys.actors[0].mailbox.len(), 1);
    assert!(sys.restart(a));
    assert_eq!(sys.status_text(a), "running");
    assert_eq!(sys.restarts(a), 1);
    assert!(sys.actors[0].mailbox.is_empty());
    assert!(!sys.restart(99));
    assert_eq!(sys.restarts(99), 0);
    assert!(!sys.fail(99));
}

#[test]
fn send_native_checks_its_arguments_and_posts() {
    let mut sys = ActorSystem::new();
    let a = sys.spawn(Some("inbox".to_string()), Value::Nil);
    let r = sys.send_native(&vec![Value::Int(a as i64), Value::Int(42)]);
    assert!(matches!(r, Ok(Value::Bool(true))));
    match sys.try_recv(a) {
        Ok(Some(m)) => assert_eq!(payload_int(&m.payload), 42),
        _ => panic!("expected the posted message"),
    }
    assert!(matches!(sys.send_native(&vec![Value::Int(99), Value::Nil]), Ok(Value::Bool(false))));
    match sys.send_native(&vec![Value::Int(a as i64)]) {
        Err(e) => assert_eq!(e, "Actor.send(actor_id, message) expects 2 arguments"),
        _ => panic!("expected an error"),
    }
    match sys.send_native(&vec![Value::String("inbox".to_string()), Value::Nil]) {
        Err(e) => assert_eq!(e, "actor_id must be an integer"),
        _ => panic!("expected an error"),
    }
    assert!(sys.stop(a));
    assert!(matches!(sys.send_native(&vec![Value::Int(a as i64), Value::Nil]), Ok(Value::Bool(false))));
}
