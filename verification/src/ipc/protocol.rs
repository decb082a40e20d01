use crate::console::ConsoleLine;
use crate::instance::{InstanceConfig, InstanceState};
use vstd::prelude::*;

verus! {

/// A request from a client.
#[derive(Debug)]
pub enum AgentRequest {
    /// Start an instance.
    CreateInstance(InstanceConfig),
    /// Stop an instance gracefully.
    StopInstance { id: String },
    /// Kill an instance.
    KillInstance { id: String },
    /// Forget an instance whose process has ended.
    RemoveInstance { id: String },
    /// List the instances.
    ListInstances,
    /// The state of one instance.
    GetState { id: String },
    /// Write a command to an instance's console.
    SendConsole { id: String, line: String },
    /// The console backlog, then every new console line.
    SubscribeConsole { id: String },
    /// The console backlog.
    GetBacklog { id: String },
}

/// An answer to a client, or an event sent to it.
#[derive(Debug)]
pub enum AgentResponse {
    /// Done; sent to clients as `"Ok"`.
    Done,
    /// Done, with data.
    OkData(ResponseData),
    /// Refused or failed.
    Error { message: String },
}

/// The data of an answer.
#[derive(Debug)]
pub enum ResponseData {
    /// The id of a created instance.
    InstanceId(String),
    /// Every instance.
    InstanceList(Vec<InstanceInfo>),
    /// The state of an instance.
    InstanceState(InstanceState),
    /// A console backlog, oldest line first.
    Backlog(Vec<ConsoleLine>),
    /// A console line as it is printed.
    ConsoleLine(ConsoleLine),
}

/// An instance in a listing.
#[derive(Debug)]
pub struct InstanceInfo {
    pub id: String,
    pub state: InstanceState,
}

} // verus!
