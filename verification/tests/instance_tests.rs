use nova_agent::console::ConsoleStream;
use nova_agent::error::AgentError;
use nova_agent::instance::{ExitReport, InstanceManager, InstanceState, StopOutcome};
use nova_agent::state::AppState;

const BANNER: &str = "[Server thread/INFO]: Done (2.0s)! For help, type \"help\"";

fn running(m: &mut InstanceManager, id: &str) -> u64 {
    let serial = m.create(id.to_string());
    m.on_stdout_line(id, serial, BANNER.to_string(), 1);
    serial
}

#[test]
fn app_state_starts_empty() {
    let st = AppState::new();
    assert!(st.instances.enumerate().is_empty());
}

#[test]
fn created_instance_is_starting() {
    let mut m = InstanceManager::new();
    let serial = m.create("a".to_string());
    let inst = m.lookup("a").expect("registered");
    assert_eq!(inst.state, InstanceState::Starting);
    assert_eq!(inst.serial, serial);
    assert!(inst.has_child && inst.has_stdin);
    assert!(m.lookup("b").is_none());
}

#[test]
fn create_with_an_existing_id_replaces_it() {
    let mut m = InstanceManager::new();
    let first = m.create("a".to_string());
    m.create("b".to_string());
    let second = m.create("a".to_string());
    assert_ne!(first, second);
    let list = m.enumerate();
    assert_eq!(list.len(), 2);
    assert_eq!(list[0].0, "a");
    assert_eq!(list[1].0, "b");
    assert_eq!(m.lookup("a").unwrap().serial, second);
}

#[test]
fn first_standard_output_moves_to_running() {
    let mut m = InstanceManager::new();
    let s = m.create("a".to_string());
    m.on_stderr_line("a", s, "Warning: something".to_string(), 5);
    assert_eq!(m.state_of("a"), Some(InstanceState::Starting));
    m.on_stdout_line("a", s, "Loading libraries".to_string(), 6);
    assert_eq!(m.state_of("a"), Some(InstanceState::Running));
    m.on_stdout_line("a", s, BANNER.to_string(), 7);
    assert_eq!(m.state_of("a"), Some(InstanceState::Running));
    let b = m.backlog("a").unwrap();
    assert_eq!(b.len(), 3);
    assert_eq!(b[0].stream, ConsoleStream::Stderr);
    assert_eq!(b[1].stream, ConsoleStream::Stdout);
    assert_eq!(b[2].timestamp, 7);
}

#[test]
fn serials_are_never_reused() {
    let mut m = InstanceManager::new();
    assert!(m.can_register());
    let a = m.create("a".to_string());
    let b = m.create("b".to_string());
    let a2 = m.create("a".to_string());
    assert_eq!((a, b, a2), (0, 1, 2));
    let sub = m.subscribe("a").expect("registered");
    assert_eq!(sub.owner, a2);
    assert!(m.subscribe("zz").is_none());
}

#[test]
fn events_of_an_earlier_instance_are_ignored() {
    let mut m = InstanceManager::new();
    let old = m.create("a".to_string());
    m.create("a".to_string());
    m.on_stdout_line("a", old, BANNER.to_string(), 1);
    assert_eq!(m.state_of("a"), Some(InstanceState::Starting));
    assert!(m.backlog("a").unwrap().is_empty());
}

#[test]
fn stop_requires_running() {
    let mut m = InstanceManager::new();
    m.create("a".to_string());
    match m.stop("a") {
        Err(e @ AgentError::NotRunning { .. }) => {
            assert_eq!(e.message(), "instance a is not running (state=Starting)")
        },
        other => panic!("unexpected {other:?}"),
    }
    assert!(matches!(m.stop("zz"), Err(AgentError::NotFound { .. })));
}

#[test]
fn stop_that_exits_in_time_stops_the_instance() {
    let mut m = InstanceManager::new();
    let s = running(&mut m, "a");
    assert_eq!(m.stop("a").unwrap(), s);
    assert_eq!(m.state_of("a"), Some(InstanceState::Stopping));
    m.finish_stop("a", s, StopOutcome::Exited { success: true }, 10);
    let inst = m.lookup("a").unwrap();
    assert_eq!(inst.state, InstanceState::Stopped);
    assert!(!inst.has_child && !inst.has_stdin);
}

#[test]
fn stop_with_failure_status_crashes() {
    let mut m = InstanceManager::new();
    let s = running(&mut m, "a");
    m.stop("a").unwrap();
    m.finish_stop("a", s, StopOutcome::Exited { success: false }, 10);
    assert_eq!(m.state_of("a"), Some(InstanceState::Crashed));
}

#[test]
fn stop_that_times_out_waits_for_a_decision() {
    let mut m = InstanceManager::new();
    let s = running(&mut m, "a");
    m.stop("a").unwrap();
    m.finish_stop("a", s, StopOutcome::TimedOut, 99);
    assert_eq!(m.state_of("a"), Some(InstanceState::StoppingTimedOut));
    let b = m.backlog("a").unwrap();
    let last = b.last().unwrap();
    assert_eq!(last.stream, ConsoleStream::System);
    assert_eq!(last.timestamp, 99);
    assert_eq!(
        last.line,
        "instance a has not stopped within 60 seconds, waiting for user decision to force kill"
    );
    assert_eq!(m.kill("a").unwrap(), Some(s));
    m.mark_killed("a", s);
    assert_eq!(m.state_of("a"), Some(InstanceState::Stopped));
}

#[test]
fn kill_is_refused_after_the_process_ended() {
    let mut m = InstanceManager::new();
    let s = m.create("a".to_string());
    assert!(matches!(m.kill("a"), Err(AgentError::CannotKill { state: InstanceState::Starting, .. })));
    m.on_exit("a", s, ExitReport::Exited { success: true, code: Some(0) }, 3);
    match m.kill("a") {
        Err(e) => assert_eq!(e.message(), "instance a cannot be killed in state Stopped"),
        Ok(_) => panic!("kill of a stopped instance"),
    }
}

#[test]
fn exit_is_recorded_on_the_console() {
    let mut m = InstanceManager::new();
    let s = running(&mut m, "a");
    m.on_exit("a", s, ExitReport::Exited { success: false, code: Some(137) }, 4);
    let inst = m.lookup("a").unwrap();
    assert_eq!(inst.state, InstanceState::Crashed);
    assert!(!inst.has_child);
    let b = m.backlog("a").unwrap();
    assert_eq!(b.last().unwrap().line, "instance a exited with code: 137");
    assert_eq!(b.last().unwrap().stream, ConsoleStream::System);
}

#[test]
fn failed_wait_crashes_without_a_note() {
    let mut m = InstanceManager::new();
    let s = running(&mut m, "a");
    m.on_exit("a", s, ExitReport::WaitFailed, 4);
    let inst = m.lookup("a").unwrap();
    assert_eq!(inst.state, InstanceState::Crashed);
    assert!(inst.has_child);
    assert_eq!(m.backlog("a").unwrap().len(), 1);
}

#[test]
fn remove_needs_an_ended_process() {
    let mut m = InstanceManager::new();
    let s = running(&mut m, "a");
    match m.remove("a") {
        Err(e) => assert_eq!(e.message(), "instance a is still running (state=Running)"),
        Ok(()) => panic!("removed a running instance"),
    }
    m.on_exit("a", s, ExitReport::Exited { success: true, code: Some(0) }, 2);
    m.remove("a").unwrap();
    assert!(m.lookup("a").is_none());
    assert!(matches!(m.remove("a"), Err(AgentError::NotFound { .. })));
}

#[test]
fn send_console_appends_a_newline() {
    let mut m = InstanceManager::new();
    let s = running(&mut m, "a");
    assert_eq!(m.send_console("a", "say hi").unwrap(), "say hi\n");
    m.on_exit("a", s, ExitReport::Exited { success: true, code: Some(0) }, 2);
    match m.send_console("a", "say hi") {
        Err(e) => assert_eq!(e.message(), "instance a has no stdin (not running)"),
        Ok(_) => panic!("wrote to an ended process"),
    }
}

#[test]
fn shutdown_stops_running_and_starting_instances() {
    let mut m = InstanceManager::new();
    let a = running(&mut m, "a");
    let b = m.create("b".to_string());
    let c = m.create("c".to_string());
    m.on_exit("c", c, ExitReport::Exited { success: true, code: Some(0) }, 1);
    let snapshot = m.serials();
    assert_eq!(snapshot, vec![a, b, c]);
    let targets = m.begin_shutdown();
    assert_eq!(targets, vec!["a".to_string(), "b".to_string()]);
    assert_eq!(m.state_of("a"), Some(InstanceState::Stopping));
    assert_eq!(m.state_of("b"), Some(InstanceState::Stopping));
    assert_eq!(m.state_of("c"), Some(InstanceState::Stopped));
    assert!(!m.all_finished());
    assert_eq!(m.unfinished_among(&snapshot), vec![a, b]);
    let late = m.create("d".to_string());
    assert_eq!(m.unfinished_among(&snapshot), vec![a, b]);
    assert_eq!(m.unfinished_among(&vec![late]), vec![late]);
    m.on_exit("a", a, ExitReport::Exited { success: true, code: Some(0) }, 2);
    assert_eq!(m.unfinished_among(&snapshot), vec![b]);
    assert!(m.kill_held(b));
    m.mark_killed_held(b);
    assert_eq!(m.state_of("b"), Some(InstanceState::Stopped));
    assert!(m.unfinished_among(&snapshot).is_empty());
}

#[test]
fn a_replaced_instance_keeps_its_console_until_released() {
    let mut m = InstanceManager::new();
    let old = m.create("a".to_string());
    let mut sub = m.subscribe("a").unwrap();
    assert_eq!(sub.owner, old);
    let new = m.create("a".to_string());
    m.on_stdout_line("a", old, "old output".to_string(), 1);
    assert_eq!(sub.rx.try_recv().unwrap().line, "old output");
    assert!(m.backlog("a").unwrap().is_empty());
    m.on_exit("a", old, ExitReport::Exited { success: true, code: Some(0) }, 2);
    assert_eq!(sub.rx.try_recv().unwrap().line, "instance a exited with code: 0");
    assert_eq!(m.state_of("a"), Some(InstanceState::Starting));
    m.release(new);
    assert_eq!(m.state_of("a"), Some(InstanceState::Starting));
    m.release(old);
    assert!(matches!(
        sub.rx.try_recv(),
        Err(tokio::sync::broadcast::error::TryRecvError::Closed)
    ));
}

#[test]
fn exit_after_a_kill_leaves_the_instance_stopped() {
    let mut m = InstanceManager::new();
    let s = running(&mut m, "a");
    assert_eq!(m.kill("a").unwrap(), Some(s));
    m.mark_killed("a", s);
    m.on_exit("a", s, ExitReport::Exited { success: false, code: None }, 3);
    assert_eq!(m.state_of("a"), Some(InstanceState::Stopped));
    assert_eq!(m.backlog("a").unwrap().len(), 1);
}

#[test]
fn shutdown_kills_a_replaced_instance_of_the_snapshot() {
    let mut m = InstanceManager::new();
    let old = running(&mut m, "a");
    let snapshot = m.serials();
    m.begin_shutdown();
    let new = m.create("a".to_string());
    assert_eq!(m.unfinished_among(&snapshot), vec![old]);
    assert!(m.kill_held(old));
    m.mark_killed_held(old);
    assert!(m.unfinished_among(&snapshot).is_empty());
    assert_eq!(m.lookup("a").unwrap().serial, new);
    assert_eq!(m.state_of("a"), Some(InstanceState::Starting));
    assert!(!m.kill_held(12345));
}

#[test]
fn kill_held_without_a_process_stops_at_once() {
    let mut m = InstanceManager::new();
    let s = running(&mut m, "a");
    m.on_exit("a", s, ExitReport::WaitFailed, 2);
    assert!(!m.kill_held(s));
    assert_eq!(m.state_of("a"), Some(InstanceState::Crashed));
}
