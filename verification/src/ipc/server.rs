use crate::console::ConsoleLine;
use crate::error::{
    cannot_kill_text, no_child_text, no_stdin_text, not_found_text, not_running_text,
    still_running_text, AgentError,
};
use crate::instance::{
    ids_unique, index_of, is_fresh, lemma_index_of, lemma_index_of_valid, is_finished, is_killable, is_plan_for, live_index, InstanceManager,
    InstanceState, LaunchPlan, ManagedInstance, StopOutcome, pushed_note, stop_timeout_text,
};
use crate::ipc::protocol::{AgentRequest, AgentResponse, InstanceInfo, ResponseData};
use crate::console::{
    receiver_channel, receiver_start, sender_channel, sent_lines, ConsoleStream, Subscription,
};
use vstd::prelude::*;

verus! {

/// How long a graceful stop waits for the process to exit, in seconds.
pub const STOP_TIMEOUT_SECS: u64 = 60;

/// How long shutting the agent down waits for every process to exit, in seconds.
pub const SHUTDOWN_TIMEOUT_SECS: u64 = 60;

/// How often shutting down checks whether every process has exited, in milliseconds.
pub const SHUTDOWN_POLL_MILLIS: u64 = 500;

/// Work on processes that a request needs before it can be answered.
#[derive(Debug)]
pub enum Effect {
    /// Start the process that `plan` describes, with piped standard streams; then call
    /// `finish_create`.
    Spawn { plan: LaunchPlan },
    /// Write `text` to the input of the instance `id` and flush it; then call `finish_write`.
    Write { id: String, text: String },
    /// Write `command`, if any, to the input of the instance `id` (a failure is ignored),
    /// wait up to `STOP_TIMEOUT_SECS` for its process to exit; then call `finish_stop_request`.
    AwaitStop { id: String, serial: u64, command: Option<String> },
    /// Kill the process of the instance `id`; then call `finish_kill`.
    Kill { id: String, serial: u64 },
}

/// What to do next for a request.
pub enum Step {
    /// Send this answer.
    Reply(AgentResponse),
    /// Do this work first.
    Perform(Effect),
    /// Send `backlog`, then each line that `subscription` receives as a `ConsoleLine` answer.
    Stream { backlog: AgentResponse, subscription: Subscription },
}

/// `r` is an error answer with the text `text`.
pub open spec fn is_error(r: AgentResponse, text: Seq<char>) -> bool {
    r matches AgentResponse::Error { message } && message@ == text
}

/// `step` sends the error answer with the text `text`.
pub open spec fn replies_error(step: Step, text: Seq<char>) -> bool {
    step matches Step::Reply(r) && is_error(r, text)
}

/// `step` sends the plain success answer.
pub open spec fn replies_ok(step: Step) -> bool {
    step matches Step::Reply(AgentResponse::Done)
}

/// `infos` lists the id and state of every instance of `s`, in order.
pub open spec fn lists(infos: Seq<InstanceInfo>, s: Seq<ManagedInstance>) -> bool {
    &&& infos.len() == s.len()
    &&& forall|i: int| 0 <= i < s.len() ==> (#[trigger] infos[i]).id@ == s[i].id@ && infos[i].state == s[i].state
}

/// What handling `request` does: `old` is the set of instances before and `new` after,
/// `fresh` the random bytes an id is made from when a new instance has none, `step` is
/// what follows.
pub open spec fn request_step(
    old: Seq<ManagedInstance>,
    new: Seq<ManagedInstance>,
    request: AgentRequest,
    fresh: Seq<u8>,
    step: Step,
) -> bool {
    match request {
        AgentRequest::CreateInstance(config) => {
            &&& new == old
            &&& step matches Step::Perform(Effect::Spawn { plan })
            &&& is_plan_for(config, fresh, plan)
        },
        AgentRequest::StopInstance { id } => match index_of(old, id@) {
            None => new == old && replies_error(step, not_found_text(id@)),
            Some(i) => if old[i].state != InstanceState::Running {
                new == old && replies_error(step, not_running_text(id@, old[i].state))
            } else if old[i].has_child {
                &&& new == old.update(i, old[i].with_state(InstanceState::Stopping))
                &&& step matches Step::Perform(Effect::AwaitStop { id: e, serial, command })
                &&& e@ == id@
                &&& serial == old[i].serial
                &&& old[i].has_stdin ==> (command matches Some(c) && c@ == "stop\n"@)
                &&& !old[i].has_stdin ==> command is None
            } else {
                new == old.update(i, old[i].with_state(InstanceState::Stopping)) && replies_error(step, no_child_text())
            },
        },
        AgentRequest::KillInstance { id } => match index_of(old, id@) {
            None => new == old && replies_error(step, not_found_text(id@)),
            Some(i) => if !is_killable(old[i].state) {
                new == old && replies_error(step, cannot_kill_text(id@, old[i].state))
            } else if old[i].has_child {
                &&& new == old
                &&& step matches Step::Perform(Effect::Kill { id: e, serial })
                &&& e@ == id@
                &&& serial == old[i].serial
            } else {
                new == old.update(i, old[i].released(InstanceState::Stopped)) && replies_ok(step)
            },
        },
        AgentRequest::RemoveInstance { id } => match index_of(old, id@) {
            None => new == old && replies_error(step, not_found_text(id@)),
            Some(i) => if !is_finished(old[i].state) {
                new == old && replies_error(step, still_running_text(id@, old[i].state))
            } else {
                new == old.remove(i) && replies_ok(step)
            },
        },
        AgentRequest::ListInstances => {
            &&& new == old
            &&& step matches Step::Reply(AgentResponse::OkData(ResponseData::InstanceList(infos)))
            &&& lists(infos@, old)
        },
        AgentRequest::GetState { id } => match index_of(old, id@) {
            None => new == old && replies_error(step, not_found_text(id@)),
            Some(i) => {
                &&& new == old
                &&& step matches Step::Reply(AgentResponse::OkData(ResponseData::InstanceState(st)))
                &&& st == old[i].state
            },
        },
        AgentRequest::SendConsole { id, line } => match index_of(old, id@) {
            None => new == old && replies_error(step, not_found_text(id@)),
            Some(i) => if !old[i].has_stdin {
                new == old && replies_error(step, no_stdin_text(id@))
            } else {
                &&& new == old
                &&& step matches Step::Perform(Effect::Write { id: e, text })
                &&& e@ == id@
                &&& text@ == line@ + "\n"@
            },
        },
        AgentRequest::SubscribeConsole { id } => match index_of(old, id@) {
            None => new == old && replies_error(step, not_found_text(id@)),
            Some(i) => {
                &&& new == old
                &&& step matches Step::Stream { backlog: AgentResponse::OkData(ResponseData::Backlog(lines)), subscription }
                &&& lines@ == old[i].console@
                &&& subscription.owner == old[i].serial
                &&& receiver_channel(subscription.rx) == sender_channel(old[i].console.channel())
                &&& receiver_start(subscription.rx) == sent_lines(old[i].console.channel()).len()
            },
        },
        AgentRequest::GetBacklog { id } => match index_of(old, id@) {
            None => new == old && replies_error(step, not_found_text(id@)),
            Some(i) => {
                &&& new == old
                &&& step matches Step::Reply(AgentResponse::OkData(ResponseData::Backlog(lines)))
                &&& lines@ == old[i].console@
            },
        },
    }
}

/// Whether shutting down stops waiting, after `waited_millis` milliseconds: when every
/// process has exited, or when `SHUTDOWN_TIMEOUT_SECS` have passed.
pub fn shutdown_wait_over(mgr: &InstanceManager, waited_millis: u64) -> (r: bool)
    ensures
        r == ((forall|i: int| 0 <= i < mgr@.len() ==> is_finished(#[trigger] mgr@[i].state))
            || waited_millis >= SHUTDOWN_TIMEOUT_SECS * 1000),
{
    mgr.all_finished() || waited_millis >= SHUTDOWN_TIMEOUT_SECS * 1000
}

/// The error answer for `e`.
pub fn error_response(e: &AgentError) -> (r: AgentResponse)
    ensures
        is_error(r, e.spec_message()),
{
    AgentResponse::Error { message: e.message() }
}

/// The answer to a line that is not a request; `detail` says why it could not be read.
pub fn invalid_request(detail: &str) -> (r: AgentResponse)
    ensures
        is_error(r, "invalid request: "@ + detail@),
{
    let mut message = String::from_str("invalid request: ");
    message.append(detail);
    AgentResponse::Error { message }
}

/// The event that carries a console line to a subscriber.
pub fn console_line_response(line: ConsoleLine) -> (r: AgentResponse)
    ensures
        r == AgentResponse::OkData(ResponseData::ConsoleLine(line)),
{
    AgentResponse::OkData(ResponseData::ConsoleLine(line))
}

fn instance_list(mgr: &InstanceManager) -> (infos: Vec<InstanceInfo>)
    ensures
        lists(infos@, mgr@),
{
    let entries = mgr.enumerate();
    let mut infos: Vec<InstanceInfo> = Vec::new();
    let mut i: usize = 0;
    while i < entries.len()
        invariant
            i <= entries@.len(),
            entries@.len() == mgr@.len(),
            forall|j: int| 0 <= j < mgr@.len() ==> (#[trigger] entries@[j]).0@ == mgr@[j].id@ && entries@[j].1 == mgr@[j].state,
            infos@.len() == i,
            forall|j: int| 0 <= j < i ==> (#[trigger] infos@[j]).id@ == mgr@[j].id@ && infos@[j].state == mgr@[j].state,
        decreases entries.len() - i,
    {
        infos.push(InstanceInfo { id: entries[i].0.clone(), state: entries[i].1 });
        i += 1;
    }
    infos
}

/// Decides what a request does to the instances and what follows it. `fresh` are random
/// bytes to make the id of a new instance from when the request gives none.
pub fn handle_request(mgr: &mut InstanceManager, request: AgentRequest, fresh: [u8; 16]) -> (step: Step)
    requires
        old(mgr).wf(),
    ensures
        final(mgr).wf(),
        final(mgr).detached() == old(mgr).detached(),
        request_step(old(mgr)@, final(mgr)@, request, fresh@, step),
{
    match request {
        AgentRequest::CreateInstance(config) => Step::Perform(Effect::Spawn { plan: config.launch_plan(fresh) }),
        AgentRequest::StopInstance { id } => {
            let ghost i = index_of(mgr@, id@)->0;
            match mgr.stop(id.as_str()) {
                Ok(serial) => {
                    proof {
                        lemma_index_of_valid(old(mgr)@, id@);
                        lemma_index_of(mgr@, id@, i);
                    }
                    let command = match mgr.send_console(id.as_str(), "stop") {
                        Ok(text) => Some(text),
                        Err(_) => None,
                    };
                    proof {
                        reveal_strlit("stop");
                        reveal_strlit("\n");
                        reveal_strlit("stop\n");
                        assert("stop"@ + "\n"@ =~= "stop\n"@);
                    }
                    Step::Perform(Effect::AwaitStop { id, serial, command })
                },
                Err(e) => Step::Reply(error_response(&e)),
            }
        },
        AgentRequest::KillInstance { id } => match mgr.kill(id.as_str()) {
            Ok(Some(serial)) => Step::Perform(Effect::Kill { id, serial }),
            Ok(None) => Step::Reply(AgentResponse::Done),
            Err(e) => Step::Reply(error_response(&e)),
        },
        AgentRequest::RemoveInstance { id } => match mgr.remove(id.as_str()) {
            Ok(()) => Step::Reply(AgentResponse::Done),
            Err(e) => Step::Reply(error_response(&e)),
        },
        AgentRequest::ListInstances => {
            Step::Reply(AgentResponse::OkData(ResponseData::InstanceList(instance_list(mgr))))
        },
        AgentRequest::GetState { id } => match mgr.state_of(id.as_str()) {
            Some(st) => Step::Reply(AgentResponse::OkData(ResponseData::InstanceState(st))),
            None => Step::Reply(error_response(&AgentError::NotFound { id })),
        },
        AgentRequest::SendConsole { id, line } => match mgr.send_console(id.as_str(), line.as_str()) {
            Ok(text) => Step::Perform(Effect::Write { id, text }),
            Err(e) => Step::Reply(error_response(&e)),
        },
        AgentRequest::SubscribeConsole { id } => match mgr.backlog(id.as_str()) {
            Some(lines) => {
                match mgr.subscribe(id.as_str()) {
                    Some(subscription) => Step::Stream { backlog: AgentResponse::OkData(ResponseData::Backlog(lines)), subscription },
                    None => Step::Reply(error_response(&AgentError::NotFound { id })),
                }
            },
            None => Step::Reply(error_response(&AgentError::NotFound { id })),
        },
        AgentRequest::GetBacklog { id } => match mgr.backlog(id.as_str()) {
            Some(lines) => Step::Reply(AgentResponse::OkData(ResponseData::Backlog(lines))),
            None => Step::Reply(error_response(&AgentError::NotFound { id })),
        },
    }
}

/// Answers a `CreateInstance` request once the process for `plan` was started (`Ok`) or
/// could not be (`Err`, with the system's reason): a started instance is registered (see
/// `InstanceManager::create`) and its id sent, together with its serial for the caller.
pub fn finish_create(mgr: &mut InstanceManager, plan: LaunchPlan, spawned: Result<(), String>) -> (r: (AgentResponse, Option<u64>))
    requires
        old(mgr).wf(),
        spawned is Ok ==> old(mgr).issued() < u64::MAX,
    ensures
        final(mgr).wf(),
        match spawned {
            Ok(()) => {
                &&& r.0 matches AgentResponse::OkData(ResponseData::InstanceId(id)) && id@ == plan.id@
                &&& r.1 matches Some(serial)
                &&& serial == old(mgr).issued()
                &&& final(mgr).issued() == old(mgr).issued() + 1
                &&& forall|j: int| 0 <= j < old(mgr).everything().len() ==> (#[trigger] old(mgr).everything()[j]).serial != serial
                &&& match index_of(old(mgr)@, plan.id@) {
                    Some(i) => {
                        &&& final(mgr)@ == old(mgr)@.update(i, final(mgr)@[i])
                        &&& final(mgr).detached() == old(mgr).detached().push(old(mgr)@[i])
                    },
                    None => {
                        &&& final(mgr)@ == old(mgr)@.push(final(mgr)@.last())
                        &&& final(mgr).detached() == old(mgr).detached()
                    },
                }
                &&& index_of(final(mgr)@, plan.id@) matches Some(k) && is_fresh(final(mgr)@[k], plan.id, serial)
            },
            Err(message) => {
                &&& final(mgr)@ == old(mgr)@
                &&& final(mgr).detached() == old(mgr).detached()
                &&& is_error(r.0, message@)
                &&& r.1 is None
            },
        },
{
    match spawned {
        Ok(()) => {
            let id = plan.id.clone();
            let serial = mgr.create(plan.id);
            (AgentResponse::OkData(ResponseData::InstanceId(id)), Some(serial))
        },
        Err(message) => (AgentResponse::Error { message }, None),
    }
}

/// Answers a `SendConsole` request once the text was written (`Ok`) or could not be
/// (`Err`, with the system's reason).
pub fn finish_write(written: Result<(), String>) -> (r: AgentResponse)
    ensures
        match written {
            Ok(()) => r == AgentResponse::Done,
            Err(message) => is_error(r, message@),
        },
{
    match written {
        Ok(()) => AgentResponse::Done,
        Err(message) => AgentResponse::Error { message },
    }
}

/// Answers a `StopInstance` request once the wait for the process ended (see
/// `InstanceManager::finish_stop`); a stop is answered with success either way.
pub fn finish_stop_request(mgr: &mut InstanceManager, id: &str, serial: u64, outcome: StopOutcome, now: u64) -> (r: AgentResponse)
    requires
        old(mgr).wf(),
    ensures
        final(mgr).wf(),
        final(mgr).detached() == old(mgr).detached(),
        r == AgentResponse::Done,
        match live_index(old(mgr)@, id@, serial) {
            None => final(mgr)@ == old(mgr)@,
            Some(i) => {
                &&& final(mgr)@ == old(mgr)@.update(i, final(mgr)@[i])
                &&& match outcome {
                    StopOutcome::Exited { success } => final(mgr)@[i] == old(mgr)@[i].released(
                        if success { InstanceState::Stopped } else { InstanceState::Crashed },
                    ),
                    StopOutcome::TimedOut => {
                        &&& old(mgr)@[i].same_but_state_console(final(mgr)@[i])
                        &&& final(mgr)@[i].state == InstanceState::StoppingTimedOut
                        &&& pushed_note(old(mgr)@[i].console, final(mgr)@[i].console, now, ConsoleStream::System, stop_timeout_text(id@))
                    },
                }
            },
        },
{
    mgr.finish_stop(id, serial, outcome, now);
    AgentResponse::Done
}

/// Answers a `KillInstance` request once the process was killed (`Ok`; the instance is
/// marked stopped, see `InstanceManager::mark_killed`) or could not be (`Err`, with the
/// system's reason; nothing changes).
pub fn finish_kill(mgr: &mut InstanceManager, id: &str, serial: u64, killed: Result<(), String>) -> (r: AgentResponse)
    requires
        old(mgr).wf(),
    ensures
        final(mgr).wf(),
        final(mgr).detached() == old(mgr).detached(),
        match killed {
            Ok(()) => {
                &&& r == AgentResponse::Done
                &&& match live_index(old(mgr)@, id@, serial) {
                    None => final(mgr)@ == old(mgr)@,
                    Some(i) => final(mgr)@ == old(mgr)@.update(i, old(mgr)@[i].released(InstanceState::Stopped)),
                }
            },
            Err(message) => final(mgr)@ == old(mgr)@ && is_error(r, message@),
        },
{
    match killed {
        Ok(()) => {
            mgr.mark_killed(id, serial);
            AgentResponse::Done
        },
        Err(message) => AgentResponse::Error { message },
    }
}

} // verus!

verus! {

/// The id that a request names, if it names one.
pub open spec fn request_id(request: AgentRequest) -> Option<Seq<char>> {
    match request {
        AgentRequest::CreateInstance(_) => None,
        AgentRequest::StopInstance { id } => Some(id@),
        AgentRequest::KillInstance { id } => Some(id@),
        AgentRequest::RemoveInstance { id } => Some(id@),
        AgentRequest::ListInstances => None,
        AgentRequest::GetState { id } => Some(id@),
        AgentRequest::SendConsole { id, .. } => Some(id@),
        AgentRequest::SubscribeConsole { id } => Some(id@),
        AgentRequest::GetBacklog { id } => Some(id@),
    }
}

/// A request that names an unknown instance is answered `instance {id} not found` and
/// changes nothing.
pub proof fn lemma_unknown_id_not_found(
    old: Seq<ManagedInstance>,
    new: Seq<ManagedInstance>,
    request: AgentRequest,
    fresh: Seq<u8>,
    step: Step,
)
    requires
        request_step(old, new, request, fresh, step),
        request_id(request) matches Some(id) && index_of(old, id) is None,
    ensures
        new == old,
        replies_error(step, not_found_text(request_id(request)->0)),
{
}

/// A refused request changes nothing, except a stop of a running instance that holds no
/// process: that one is left stopping.
pub proof fn lemma_refusal_changes_nothing(
    old: Seq<ManagedInstance>,
    new: Seq<ManagedInstance>,
    request: AgentRequest,
    fresh: Seq<u8>,
    step: Step,
)
    requires
        request_step(old, new, request, fresh, step),
        step matches Step::Reply(AgentResponse::Error { .. }),
        !(request matches AgentRequest::StopInstance { id } && index_of(old, id@) matches Some(i)
            && old[i].state == InstanceState::Running && !old[i].has_child),
    ensures
        new == old,
{
}

/// `GetState` on a registered id answers that instance's own state, whatever the state
/// is, and changes nothing.
pub proof fn lemma_get_state_answers_own_state(
    old: Seq<ManagedInstance>,
    new: Seq<ManagedInstance>,
    id: String,
    fresh: Seq<u8>,
    step: Step,
    i: int,
)
    requires
        request_step(old, new, AgentRequest::GetState { id }, fresh, step),
        ids_unique(old),
        0 <= i < old.len(),
        old[i].id@ == id@,
    ensures
        new == old,
        step matches Step::Reply(AgentResponse::OkData(ResponseData::InstanceState(st))) && st == old[i].state,
{
    lemma_index_of(old, id@, i);
}

/// `ListInstances` answers every instance, in order, each with its own id and state, and
/// changes nothing.
pub proof fn lemma_list_answers_own_states(
    old: Seq<ManagedInstance>,
    new: Seq<ManagedInstance>,
    fresh: Seq<u8>,
    step: Step,
)
    requires
        request_step(old, new, AgentRequest::ListInstances, fresh, step),
    ensures
        new == old,
        step matches Step::Reply(AgentResponse::OkData(ResponseData::InstanceList(infos))) && {
            &&& infos@.len() == old.len()
            &&& forall|i: int| 0 <= i < old.len() ==> (#[trigger] infos@[i]).state == old[i].state && infos@[i].id@ == old[i].id@
        },
{
}

} // verus!
