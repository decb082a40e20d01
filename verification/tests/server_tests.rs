use nova_agent::console::ConsoleStream;
use nova_agent::instance::{ExitReport, InstanceConfig, InstanceManager, InstanceState, StopOutcome};
use nova_agent::ipc::protocol::{AgentRequest, AgentResponse, ResponseData};
use nova_agent::ipc::server::{
    console_line_response, finish_create, finish_kill, finish_stop_request, finish_write,
    handle_request, invalid_request, shutdown_wait_over, Effect, Step,
};

const FRESH: [u8; 16] = [70, 235, 208, 238, 14, 109, 67, 201, 185, 13, 204, 195, 90, 145, 63, 62];

fn error_text(step: &Step) -> String {
    match step {
        Step::Reply(AgentResponse::Error { message }) => message.clone(),
        _ => panic!("not an error answer"),
    }
}

fn create(m: &mut InstanceManager, id: &str) -> u64 {
    let step = handle_request(
        m,
        AgentRequest::CreateInstance(InstanceConfig {
            id: Some(id.to_string()),
            java_path: "java".to_string(),
            jvm_args: vec!["-Xmx2G".to_string()],
            jar_path: "server.jar".to_string(),
            program_args: vec!["nogui".to_string()],
            working_dir: None,
        }),
        FRESH,
    );
    let plan = match step {
        Step::Perform(Effect::Spawn { plan }) => plan,
        _ => panic!("create must spawn"),
    };
    assert_eq!(plan.args, vec!["-Xmx2G", "-jar", "server.jar", "nogui"]);
    let (resp, serial) = finish_create(m, plan, Ok(()));
    match resp {
        AgentResponse::OkData(ResponseData::InstanceId(got)) => assert_eq!(got, id),
        _ => panic!("create must answer the id"),
    }
    serial.unwrap()
}

#[test]
fn unknown_ids_are_not_found() {
    let mut m = InstanceManager::new();
    for req in [
        AgentRequest::StopInstance { id: "x".to_string() },
        AgentRequest::KillInstance { id: "x".to_string() },
        AgentRequest::RemoveInstance { id: "x".to_string() },
        AgentRequest::GetState { id: "x".to_string() },
        AgentRequest::SendConsole { id: "x".to_string(), line: "say".to_string() },
        AgentRequest::SubscribeConsole { id: "x".to_string() },
        AgentRequest::GetBacklog { id: "x".to_string() },
    ] {
        let step = handle_request(&mut m, req, FRESH);
        assert_eq!(error_text(&step), "instance x not found");
    }
}

#[test]
fn failed_spawn_is_reported_and_registers_nothing() {
    let mut m = InstanceManager::new();
    let step = handle_request(
        &mut m,
        AgentRequest::CreateInstance(InstanceConfig {
            id: None,
            java_path: "/no/java".to_string(),
            jvm_args: vec![],
            jar_path: "server.jar".to_string(),
            program_args: vec![],
            working_dir: None,
        }),
        FRESH,
    );
    let plan = match step {
        Step::Perform(Effect::Spawn { plan }) => plan,
        _ => panic!("create must spawn"),
    };
    assert_eq!(plan.id, "46ebd0ee-0e6d-43c9-b90d-ccc35a913f3e");
    let (resp, serial) = finish_create(&mut m, plan, Err("No such file or directory (os error 2)".to_string()));
    assert!(serial.is_none());
    match resp {
        AgentResponse::Error { message } => assert_eq!(message, "No such file or directory (os error 2)"),
        _ => panic!("spawn failure must be an error"),
    }
    assert!(m.enumerate().is_empty());
}

#[test]
fn list_and_state() {
    let mut m = InstanceManager::new();
    create(&mut m, "a");
    create(&mut m, "b");
    match handle_request(&mut m, AgentRequest::ListInstances, FRESH) {
        Step::Reply(AgentResponse::OkData(ResponseData::InstanceList(infos))) => {
            assert_eq!(infos.len(), 2);
            assert_eq!(infos[0].id, "a");
            assert_eq!(infos[1].id, "b");
            assert_eq!(infos[1].state, InstanceState::Starting);
        },
        _ => panic!("list must answer the instances"),
    }
    match handle_request(&mut m, AgentRequest::GetState { id: "b".to_string() }, FRESH) {
        Step::Reply(AgentResponse::OkData(ResponseData::InstanceState(s))) => assert_eq!(s, InstanceState::Starting),
        _ => panic!("state must be answered"),
    }
}

#[test]
fn send_console_writes_the_line() {
    let mut m = InstanceManager::new();
    create(&mut m, "a");
    match handle_request(&mut m, AgentRequest::SendConsole { id: "a".to_string(), line: "say hello".to_string() }, FRESH) {
        Step::Perform(Effect::Write { id, text }) => {
            assert_eq!(id, "a");
            assert_eq!(text, "say hello\n");
        },
        _ => panic!("send must write"),
    }
    assert!(matches!(finish_write(Ok(())), AgentResponse::Done));
    match finish_write(Err("Broken pipe (os error 32)".to_string())) {
        AgentResponse::Error { message } => assert_eq!(message, "Broken pipe (os error 32)"),
        _ => panic!("write failure must be an error"),
    }
}

#[test]
fn stop_kill_remove_flow() {
    let mut m = InstanceManager::new();
    let serial = create(&mut m, "a");
    let step = handle_request(&mut m, AgentRequest::StopInstance { id: "a".to_string() }, FRESH);
    assert_eq!(error_text(&step), "instance a is not running (state=Starting)");
    m.on_stdout_line("a", serial, "Done (1.2s)! For help, type \"help\"".to_string(), 1);
    let step = handle_request(&mut m, AgentRequest::StopInstance { id: "a".to_string() }, FRESH);
    match step {
        Step::Perform(Effect::AwaitStop { id, serial: s, command }) => {
            assert_eq!(id, "a");
            assert_eq!(s, serial);
            assert_eq!(command.as_deref(), Some("stop\n"));
        },
        _ => panic!("stop must wait"),
    }
    assert_eq!(m.state_of("a"), Some(InstanceState::Stopping));
    let resp = finish_stop_request(&mut m, "a", serial, StopOutcome::TimedOut, 5);
    assert!(matches!(resp, AgentResponse::Done));
    assert_eq!(m.state_of("a"), Some(InstanceState::StoppingTimedOut));
    let step = handle_request(&mut m, AgentRequest::RemoveInstance { id: "a".to_string() }, FRESH);
    assert_eq!(error_text(&step), "instance a is still running (state=StoppingTimedOut)");
    match handle_request(&mut m, AgentRequest::KillInstance { id: "a".to_string() }, FRESH) {
        Step::Perform(Effect::Kill { id, serial: s }) => {
            assert_eq!(id, "a");
            assert_eq!(s, serial);
        },
        _ => panic!("kill must kill the process"),
    }
    match finish_kill(&mut m, "a", serial, Err("Operation not permitted (os error 1)".to_string())) {
        AgentResponse::Error { message } => assert_eq!(message, "Operation not permitted (os error 1)"),
        _ => panic!("kill failure must be an error"),
    }
    assert_eq!(m.state_of("a"), Some(InstanceState::StoppingTimedOut));
    assert!(matches!(finish_kill(&mut m, "a", serial, Ok(())), AgentResponse::Done));
    assert_eq!(m.state_of("a"), Some(InstanceState::Stopped));
    let step = handle_request(&mut m, AgentRequest::KillInstance { id: "a".to_string() }, FRESH);
    assert_eq!(error_text(&step), "instance a cannot be killed in state Stopped");
    let step = handle_request(&mut m, AgentRequest::RemoveInstance { id: "a".to_string() }, FRESH);
    assert!(matches!(step, Step::Reply(AgentResponse::Done)));
    let step = handle_request(&mut m, AgentRequest::GetState { id: "a".to_string() }, FRESH);
    assert_eq!(error_text(&step), "instance a not found");
}

#[test]
fn stop_that_exits_answers_ok() {
    let mut m = InstanceManager::new();
    let serial = create(&mut m, "a");
    m.on_stdout_line("a", serial, "Done (1.2s)! For help, type \"help\"".to_string(), 1);
    let _ = handle_request(&mut m, AgentRequest::StopInstance { id: "a".to_string() }, FRESH);
    let resp = finish_stop_request(&mut m, "a", serial, StopOutcome::Exited { success: true }, 5);
    assert!(matches!(resp, AgentResponse::Done));
    assert_eq!(m.state_of("a"), Some(InstanceState::Stopped));
}

#[test]
fn backlog_and_subscription() {
    let mut m = InstanceManager::new();
    let serial = create(&mut m, "a");
    m.on_stdout_line("a", serial, "first".to_string(), 1);
    match handle_request(&mut m, AgentRequest::GetBacklog { id: "a".to_string() }, FRESH) {
        Step::Reply(AgentResponse::OkData(ResponseData::Backlog(lines))) => {
            assert_eq!(lines.len(), 1);
            assert_eq!(lines[0].line, "first");
        },
        _ => panic!("backlog must be answered"),
    }
    let mut rx = match handle_request(&mut m, AgentRequest::SubscribeConsole { id: "a".to_string() }, FRESH) {
        Step::Stream { backlog: AgentResponse::OkData(ResponseData::Backlog(lines)), subscription } => {
            assert_eq!(lines.len(), 1);
            assert_eq!(subscription.owner, serial);
            subscription.rx
        },
        _ => panic!("subscribe must stream"),
    };
    m.on_stderr_line("a", serial, "second".to_string(), 2);
    let got = rx.try_recv().expect("a line");
    assert_eq!(got.line, "second");
    assert_eq!(got.stream, ConsoleStream::Stderr);
    match console_line_response(got) {
        AgentResponse::OkData(ResponseData::ConsoleLine(l)) => assert_eq!(l.timestamp, 2),
        _ => panic!("a console line event"),
    }
    m.on_exit("a", serial, ExitReport::Exited { success: true, code: Some(0) }, 3);
    assert_eq!(rx.try_recv().unwrap().line, "instance a exited with code: 0");
}

#[test]
fn kill_without_a_process_stops_at_once() {
    let mut m = InstanceManager::new();
    let serial = create(&mut m, "a");
    m.on_stdout_line("a", serial, "Done (1.2s)! For help, type \"help\"".to_string(), 1);
    m.on_exit("a", serial, ExitReport::WaitFailed, 2);
    assert_eq!(m.state_of("a"), Some(InstanceState::Crashed));
    let step = handle_request(&mut m, AgentRequest::KillInstance { id: "a".to_string() }, FRESH);
    assert_eq!(error_text(&step), "instance a cannot be killed in state Crashed");
}

#[test]
fn invalid_request_text() {
    match invalid_request("expected value at line 1 column 1") {
        AgentResponse::Error { message } => {
            assert_eq!(message, "invalid request: expected value at line 1 column 1")
        },
        _ => panic!("invalid request must be an error"),
    }
}

#[test]
fn shutdown_waits_until_all_exit_or_a_minute_passes() {
    let mut m = InstanceManager::new();
    assert!(shutdown_wait_over(&m, 0));
    let serial = create(&mut m, "a");
    assert!(!shutdown_wait_over(&m, 59_999));
    assert!(shutdown_wait_over(&m, 60_000));
    m.on_exit("a", serial, ExitReport::Exited { success: true, code: Some(0) }, 1);
    assert!(shutdown_wait_over(&m, 0));
}
