use aether_vm::timetravel::{create_session, get_session, SessionRegistry, StateDelta, TimeTravelSession};
use aether_vm::timetravel_tui::{compute_state_at_step, compute_step_diff, tui_command, tui_handle_line, TuiControl};
use aether_vm::value::Value;

fn int_of(v: Option<&Value>) -> Option<i64> {
    match v {
        Some(Value::Int(i)) => Some(*i),
        _ => None,
    }
}

fn key(s: &str) -> String {
    s.to_string()
}

#[test]
fn new_session_is_empty_on_main() {
    let s = TimeTravelSession::new(7);
    assert_eq!(s.id, 7);
    assert_eq!(s.current_step, 0);
    assert_eq!(s.active_timeline, "main");
    assert!(s.deltas.is_empty());
    assert_eq!(s.current_state.len(), 0);
}

#[test]
fn steps_and_mutations_count_up() {
    let mut s = TimeTravelSession::new(1);
    assert_eq!(s.record_step("ADD", "1 + 2"), 1);
    assert_eq!(s.record_mutation("x", Value::Int(1)), 2);
    assert_eq!(s.record_mutation("x", Value::Int(2)), 3);
    assert_eq!(int_of(s.current_state.get(&key("x"))), Some(2));
    match &s.deltas[2] {
        StateDelta::VarMutation { step, var_name, old_val, new_val } => {
            assert_eq!(*step, 3);
            assert_eq!(var_name, "x");
            assert!(matches!(old_val, Some(Value::Int(1))));
            assert!(matches!(new_val, Value::Int(2)));
        },
        _ => panic!("expected a mutation"),
    }
}

#[test]
fn log_keeps_the_step() {
    let mut s = TimeTravelSession::new(1);
    s.record_mutation("x", Value::Int(1));
    s.record_log("hello");
    assert_eq!(s.current_step, 1);
    match &s.deltas[1] {
        StateDelta::LogOutput { step, message } => {
            assert_eq!(*step, 1);
            assert_eq!(message, "hello");
        },
        _ => panic!("expected a log"),
    }
}

#[test]
fn rewind_undoes_the_last_mutation() {
    let mut s = TimeTravelSession::new(1);
    s.record_mutation("x", Value::Int(1));
    s.record_mutation("x", Value::Int(2));
    s.record_log("after");
    assert_eq!(s.rewind_steps(1), Ok(1));
    assert_eq!(int_of(s.current_state.get(&key("x"))), Some(1));
    assert_eq!(s.deltas.len(), 1);
    assert_eq!(s.current_step, 1);
}

#[test]
fn rewind_past_the_start_removes_variables() {
    let mut s = TimeTravelSession::new(1);
    s.record_mutation("x", Value::Int(1));
    assert_eq!(s.rewind_steps(5), Ok(1));
    assert!(s.current_state.get(&key("x")).is_none());
    assert_eq!(s.current_step, 0);
    assert_eq!(s.rewind_steps(0), Ok(0));
}

#[test]
fn checkpoint_restore_and_missing() {
    let mut s = TimeTravelSession::new(1);
    s.record_mutation("x", Value::Int(1));
    assert_eq!(s.create_checkpoint("a"), 2);
    s.record_mutation("x", Value::Int(5));
    assert_eq!(s.restore_checkpoint("a"), Ok(2));
    assert_eq!(int_of(s.current_state.get(&key("x"))), Some(1));
    assert_eq!(s.current_step, 4);
    match s.deltas.last().unwrap() {
        StateDelta::LogOutput { step, message } => {
            assert_eq!(*step, 4);
            assert_eq!(message, "TimeTravel: Rewound to checkpoint 'a' at step 2");
        },
        _ => panic!("expected a log"),
    }
    assert_eq!(s.restore_checkpoint("nope"), Err("Checkpoint 'nope' not found".to_string()));
}

#[test]
fn branching_switches_timeline_once() {
    let mut s = TimeTravelSession::new(1);
    s.record_mutation("x", Value::Int(1));
    assert_eq!(s.branch_timeline("b1"), Ok("b1".to_string()));
    assert_eq!(s.active_timeline, "b1");
    assert_eq!(s.branch_timeline("b1"), Err("Branch 'b1' already exists".to_string()));
    match s.deltas.last().unwrap() {
        StateDelta::LogOutput { message, .. } => {
            assert_eq!(message, "TimeTravel: Created and switched to branch 'b1'");
        },
        _ => panic!("expected a log"),
    }
}

#[test]
fn checkpoint_diff_reports_changes() {
    let mut s = TimeTravelSession::new(1);
    s.record_mutation("x", Value::Int(1));
    s.record_mutation("z", Value::Int(9));
    s.create_checkpoint("a");
    s.record_mutation("x", Value::Int(2));
    s.record_mutation("y", Value::Int(3));
    s.create_checkpoint("b");
    let d = s.diff_checkpoints("a", "b").ok().unwrap();
    assert_eq!(d.len(), 2);
    match d.get(&key("x")) {
        Some((Value::Int(1), Value::Int(2))) => {},
        _ => panic!("x should go from 1 to 2"),
    }
    match d.get(&key("y")) {
        Some((Value::Nil, Value::Int(3))) => {},
        _ => panic!("y should be added"),
    }
    assert!(d.get(&key("z")).is_none());
    assert_eq!(s.diff_checkpoints("a", "zz").err(), Some("Checkpoint 'zz' not found".to_string()));
}

#[test]
fn history_lists_every_event() {
    let mut s = TimeTravelSession::new(1);
    s.record_step("OP", "d");
    s.record_mutation("x", Value::Int(1));
    s.create_checkpoint("c");
    s.record_log("m");
    let h = s.history_entries();
    assert_eq!(h.len(), 4);
    let kinds: Vec<String> = h
        .iter()
        .map(|v| match v {
            Value::MapEntries(es) => match &es[0] {
                (k, Value::String(t)) if k == "type" => t.clone(),
                _ => String::new(),
            },
            _ => String::new(),
        })
        .collect();
    assert_eq!(kinds, vec!["step", "mutation", "checkpoint", "log"]);
}

#[test]
fn registry_hands_out_ids() {
    let mut reg = SessionRegistry::new();
    assert_eq!(create_session(&mut reg), 1);
    assert_eq!(create_session(&mut reg), 2);
    assert_eq!(get_session(&reg, 2).ok().unwrap().id, 2);
    assert_eq!(get_session(&reg, 3).err(), Some("TimeTravel session 3 not found".to_string()));
}

#[test]
fn replay_reconstructs_earlier_states() {
    let mut s = TimeTravelSession::new(1);
    s.record_mutation("x", Value::Int(1));
    s.record_mutation("y", Value::Int(2));
    s.record_mutation("x", Value::Int(3));
    let at1 = compute_state_at_step(&s, 1);
    assert_eq!(at1.len(), 1);
    assert_eq!(int_of(at1.get(&key("x"))), Some(1));
    let at3 = compute_state_at_step(&s, 3);
    assert_eq!(int_of(at3.get(&key("x"))), Some(3));
    assert_eq!(int_of(at3.get(&key("y"))), Some(2));
    assert_eq!(compute_state_at_step(&s, 0).len(), 0);
}

#[test]
fn step_diff_between_steps() {
    let mut s = TimeTravelSession::new(1);
    s.record_mutation("x", Value::Int(1));
    s.record_mutation("y", Value::Int(2));
    s.record_mutation("x", Value::Int(3));
    let d = compute_step_diff(&s, 1, 3);
    assert_eq!(d.len(), 2);
    match d.get(&key("x")) {
        Some(p) => {
            assert!(matches!(p.before, Some(Value::Int(1))));
            assert!(matches!(p.after, Some(Value::Int(3))));
        },
        None => panic!("x changed"),
    }
    match d.get(&key("y")) {
        Some(p) => {
            assert!(p.before.is_none());
            assert!(matches!(p.after, Some(Value::Int(2))));
        },
        None => panic!("y was added"),
    }
    assert_eq!(compute_step_diff(&s, 2, 2).len(), 0);
}

#[test]
fn viewer_commands_move_the_cursor() {
    let mut s = TimeTravelSession::new(1);
    s.record_mutation("x", Value::Int(1));
    s.record_mutation("x", Value::Int(2));
    let (c, d, q) = tui_command(&mut s, 2, true, "h");
    assert_eq!((c, d), (1, true));
    assert!(matches!(q, TuiControl::Continue));
    let (c, _, _) = tui_command(&mut s, 0, true, "back");
    assert_eq!(c, 0);
    let (c, _, _) = tui_command(&mut s, 2, true, "next");
    assert_eq!(c, 2);
    let (c, _, _) = tui_command(&mut s, 1, true, "n");
    assert_eq!(c, 2);
    let (_, d, _) = tui_command(&mut s, 1, true, "diff");
    assert!(!d);
    let (c, _, _) = tui_command(&mut s, 1, true, "17");
    assert_eq!(c, 2);
    let (c, _, _) = tui_command(&mut s, 2, true, "1");
    assert_eq!(c, 1);
    let (c, _, _) = tui_command(&mut s, 2, true, "what");
    assert_eq!(c, 2);
    let (_, _, q) = tui_command(&mut s, 2, true, "quit");
    assert!(matches!(q, TuiControl::Quit));
}

#[test]
fn viewer_checkpoint_and_branch_commands() {
    let mut s = TimeTravelSession::new(1);
    s.record_mutation("x", Value::Int(1));
    let (c, _, _) = tui_command(&mut s, 1, true, "c");
    assert_eq!(c, 2);
    assert!(s.checkpoints.get(&key("cp_step_1")).is_some());
    let (c, _, _) = tui_command(&mut s, 2, true, "b");
    assert_eq!(c, 2);
    assert_eq!(s.active_timeline, "branch_2");
}

#[test]
fn viewer_lines_are_trimmed_and_lowercased() {
    let mut s = TimeTravelSession::new(1);
    s.record_mutation("x", Value::Int(1));
    let (_, _, q) = tui_handle_line(&mut s, 1, true, "  QUIT \n");
    assert!(matches!(q, TuiControl::Quit));
    let (c, _, _) = tui_handle_line(&mut s, 1, true, "Left\r\n");
    assert_eq!(c, 0);
}

#[test]
fn replay_after_restore_gives_restored_state() {
    let mut s = TimeTravelSession::new(1);
    s.record_mutation("x", Value::Int(1));
    s.create_checkpoint("a");
    s.record_mutation("x", Value::Int(2));
    assert_eq!(s.restore_checkpoint("a"), Ok(2));
    assert_eq!(s.current_step, 4);
    let now = compute_state_at_step(&s, 4);
    assert_eq!(int_of(now.get(&key("x"))), Some(1));
    assert_eq!(now.len(), 1);
    let before = compute_state_at_step(&s, 3);
    assert_eq!(int_of(before.get(&key("x"))), Some(2));
    assert_eq!(s.deltas.len(), 4);
    assert!(matches!(s.deltas[3], StateDelta::LogOutput { step: 4, .. }));
}

#[test]
fn replay_after_restoring_an_overwritten_checkpoint() {
    let mut s = TimeTravelSession::new(1);
    s.record_mutation("x", Value::Int(1));
    s.create_checkpoint("a");
    s.record_mutation("x", Value::Int(2));
    s.create_checkpoint("a");
    s.record_mutation("x", Value::Int(3));
    assert_eq!(s.restore_checkpoint("a"), Ok(4));
    assert_eq!(int_of(compute_state_at_step(&s, s.current_step).get(&key("x"))), Some(2));
    assert_eq!(int_of(s.current_state.get(&key("x"))), Some(2));
}

#[test]
fn rewind_after_mutation_restores_step() {
    let mut s = TimeTravelSession::new(1);
    s.record_step("op", "");
    s.record_log("hello");
    let step = s.current_step;
    let n = s.deltas.len();
    s.record_mutation("y", Value::Int(3));
    assert_eq!(s.rewind_steps(1), Ok(1));
    assert_eq!(s.current_step, step);
    assert_eq!(s.deltas.len(), n);
    assert!(s.current_state.get(&key("y")).is_none());
}
