use crate::instance::{state_name, spec_state_name, InstanceState};
use vstd::prelude::*;

verus! {

/// Why a request on an instance was refused or failed.
#[derive(Debug)]
pub enum AgentError {
    /// No instance has this id.
    NotFound { id: String },
    /// Stopping needs a running instance.
    NotRunning { id: String, state: InstanceState },
    /// The instance holds no process to wait for.
    NoChild,
    /// Killing needs a running or stopping instance.
    CannotKill { id: String, state: InstanceState },
    /// Removing needs a stopped or crashed instance.
    StillRunning { id: String, state: InstanceState },
    /// The instance has no standard input to write to.
    NoStdin { id: String },
    /// The operating system refused an operation; the text is its own.
    Io { message: String },
}

/// `instance {id} not found`
pub open spec fn not_found_text(id: Seq<char>) -> Seq<char> {
    "instance "@ + id + " not found"@
}

/// `instance {id} is not running (state={state})`
pub open spec fn not_running_text(id: Seq<char>, state: InstanceState) -> Seq<char> {
    "instance "@ + id + " is not running (state="@ + spec_state_name(state) + ")"@
}

/// `no child process`
pub open spec fn no_child_text() -> Seq<char> {
    "no child process"@
}

/// `instance {id} cannot be killed in state {state}`
pub open spec fn cannot_kill_text(id: Seq<char>, state: InstanceState) -> Seq<char> {
    "instance "@ + id + " cannot be killed in state "@ + spec_state_name(state)
}

/// `instance {id} is still running (state={state})`
pub open spec fn still_running_text(id: Seq<char>, state: InstanceState) -> Seq<char> {
    "instance "@ + id + " is still running (state="@ + spec_state_name(state) + ")"@
}

/// `instance {id} has no stdin (not running)`
pub open spec fn no_stdin_text(id: Seq<char>) -> Seq<char> {
    "instance "@ + id + " has no stdin (not running)"@
}

impl AgentError {
    /// The text that a client is shown for this error.
    pub open spec fn spec_message(&self) -> Seq<char> {
        match self {
            AgentError::NotFound { id } => not_found_text(id@),
            AgentError::NotRunning { id, state } => not_running_text(id@, *state),
            AgentError::NoChild => no_child_text(),
            AgentError::CannotKill { id, state } => cannot_kill_text(id@, *state),
            AgentError::StillRunning { id, state } => still_running_text(id@, *state),
            AgentError::NoStdin { id } => no_stdin_text(id@),
            AgentError::Io { message } => message@,
        }
    }

    /// The text that a client is shown for this error.
    pub fn message(&self) -> (m: String)
        ensures
            m@ == self.spec_message(),
    {
        match self {
            AgentError::NotFound { id } => {
                let mut m = String::from_str("instance ");
                m.append(id.as_str());
                m.append(" not found");
                m
            },
            AgentError::NotRunning { id, state } => {
                let mut m = String::from_str("instance ");
                m.append(id.as_str());
                m.append(" is not running (state=");
                m.append(state_name(*state));
                m.append(")");
                m
            },
            AgentError::NoChild => String::from_str("no child process"),
            AgentError::CannotKill { id, state } => {
                let mut m = String::from_str("instance ");
                m.append(id.as_str());
                m.append(" cannot be killed in state ");
                m.append(state_name(*state));
                m
            },
            AgentError::StillRunning { id, state } => {
                let mut m = String::from_str("instance ");
                m.append(id.as_str());
                m.append(" is still running (state=");
                m.append(state_name(*state));
                m.append(")");
                m
            },
            AgentError::NoStdin { id } => {
                let mut m = String::from_str("instance ");
                m.append(id.as_str());
                m.append(" has no stdin (not running)");
                m
            },
            AgentError::Io { message } => message.clone(),
        }
    }
}

} // verus!
