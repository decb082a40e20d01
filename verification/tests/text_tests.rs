use nova_agent::error::AgentError;
use nova_agent::instance::{
    exit_note, state_name, stop_timeout_note, InstanceConfig, InstanceState,
};
use nova_agent::text::push_i32;

#[test]
fn decimal_text_of_integers() {
    let cases: [(i32, &str); 6] = [
        (0, "0"),
        (7, "7"),
        (137, "137"),
        (-1, "-1"),
        (i32::MAX, "2147483647"),
        (i32::MIN, "-2147483648"),
    ];
    for (n, text) in cases {
        let mut s = String::from("x=");
        push_i32(&mut s, n);
        assert_eq!(s, format!("x={text}"));
    }
}

#[test]
fn state_names_match_their_variants() {
    assert_eq!(state_name(InstanceState::Starting), "Starting");
    assert_eq!(state_name(InstanceState::Running), "Running");
    assert_eq!(state_name(InstanceState::Stopping), "Stopping");
    assert_eq!(state_name(InstanceState::StoppingTimedOut), "StoppingTimedOut");
    assert_eq!(state_name(InstanceState::Stopped), "Stopped");
    assert_eq!(state_name(InstanceState::Crashed), "Crashed");
}

#[test]
fn error_messages_match_the_protocol_table() {
    let id = || "xxx".to_string();
    assert_eq!(AgentError::NotFound { id: id() }.message(), "instance xxx not found");
    assert_eq!(
        AgentError::NotRunning { id: id(), state: InstanceState::Stopped }.message(),
        "instance xxx is not running (state=Stopped)"
    );
    assert_eq!(
        AgentError::CannotKill { id: id(), state: InstanceState::Stopped }.message(),
        "instance xxx cannot be killed in state Stopped"
    );
    assert_eq!(
        AgentError::StillRunning { id: id(), state: InstanceState::Running }.message(),
        "instance xxx is still running (state=Running)"
    );
    assert_eq!(AgentError::NoStdin { id: id() }.message(), "instance xxx has no stdin (not running)");
    assert_eq!(AgentError::NoChild.message(), "no child process");
    assert_eq!(AgentError::Io { message: "broken pipe".to_string() }.message(), "broken pipe");
}

#[test]
fn console_notes() {
    assert_eq!(
        stop_timeout_note("s1"),
        "instance s1 has not stopped within 60 seconds, waiting for user decision to force kill"
    );
    assert_eq!(exit_note("s1", Some(0)), "instance s1 exited with code: 0");
    assert_eq!(exit_note("s1", Some(1)), "instance s1 exited with code: 1");
    assert_eq!(exit_note("s1", None), "instance s1 exited with code: -1");
}

fn config(id: Option<&str>) -> InstanceConfig {
    InstanceConfig {
        id: id.map(|s| s.to_string()),
        java_path: "java".to_string(),
        jvm_args: vec!["-Xmx2G".to_string(), "-XX:+UseG1GC".to_string()],
        jar_path: "server.jar".to_string(),
        program_args: vec!["nogui".to_string()],
        working_dir: Some("C:/mc/servers/survival".to_string()),
    }
}

#[test]
fn launch_args_put_the_jar_between_jvm_and_program_args() {
    assert_eq!(
        config(None).launch_args(),
        vec!["-Xmx2G", "-XX:+UseG1GC", "-jar", "server.jar", "nogui"]
    );
}

#[test]
fn launch_plan_uses_the_given_id() {
    let plan = config(Some("survival")).launch_plan([0; 16]);
    assert_eq!(plan.id, "survival");
    assert_eq!(plan.program, "java");
    assert_eq!(plan.args.len(), 5);
    assert_eq!(plan.working_dir.as_deref(), Some("C:/mc/servers/survival"));
}

#[test]
fn launch_plan_makes_up_a_uuid_from_the_random_bytes() {
    let bytes = [70, 235, 208, 238, 14, 109, 67, 201, 185, 13, 204, 195, 90, 145, 63, 62];
    assert_eq!(config(None).launch_plan(bytes).id, "46ebd0ee-0e6d-43c9-b90d-ccc35a913f3e");
    assert_eq!(config(None).resolve_id([0; 16]), "00000000-0000-4000-8000-000000000000");
    assert_eq!(config(None).resolve_id([0xff; 16]), "ffffffff-ffff-4fff-bfff-ffffffffffff");
    assert_eq!(config(Some("given")).resolve_id([0xff; 16]), "given");
}
