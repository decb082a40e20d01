use crate::console::{
    pushed_backlog, receiver_channel, receiver_start, sender_channel, sent_lines, ConsoleBus,
    ConsoleLine, ConsoleStream, Subscription,
};
use crate::error::AgentError;
use crate::text::{int_decimal, push_i32};
use vstd::prelude::*;

verus! {

/// The life cycle of an instance.
///
/// `Starting -> Running -> Stopping -> Stopped | Crashed`; a stop that takes too long
/// ends in `StoppingTimedOut`, from where the instance can be killed.
#[derive(Debug, Clone, Copy, PartialEq, Eq, Structural)]
pub enum InstanceState {
    Starting,
    Running,
    Stopping,
    StoppingTimedOut,
    Stopped,
    Crashed,
}

/// The name of a state, as it is printed and sent to clients.
pub open spec fn spec_state_name(s: InstanceState) -> Seq<char> {
    match s {
        InstanceState::Starting => "Starting"@,
        InstanceState::Running => "Running"@,
        InstanceState::Stopping => "Stopping"@,
        InstanceState::StoppingTimedOut => "StoppingTimedOut"@,
        InstanceState::Stopped => "Stopped"@,
        InstanceState::Crashed => "Crashed"@,
    }
}

/// The name of a state, as it is printed and sent to clients.
pub fn state_name(s: InstanceState) -> (name: &'static str)
    ensures
        name@ == spec_state_name(s),
{
    match s {
        InstanceState::Starting => "Starting",
        InstanceState::Running => "Running",
        InstanceState::Stopping => "Stopping",
        InstanceState::StoppingTimedOut => "StoppingTimedOut",
        InstanceState::Stopped => "Stopped",
        InstanceState::Crashed => "Crashed",
    }
}

/// The process has ended: the instance may be removed.
pub open spec fn is_finished(s: InstanceState) -> bool {
    s == InstanceState::Stopped || s == InstanceState::Crashed
}

/// The instance may be killed.
pub open spec fn is_killable(s: InstanceState) -> bool {
    s == InstanceState::Running || s == InstanceState::Stopping || s == InstanceState::StoppingTimedOut
}

/// Shutting the agent down sends these instances the stop command.
pub open spec fn is_stoppable_on_shutdown(s: InstanceState) -> bool {
    s == InstanceState::Running || s == InstanceState::Starting
}

/// Whether the process of an instance in state `s` has ended.
pub fn finished(s: InstanceState) -> (r: bool)
    ensures
        r == is_finished(s),
{
    s == InstanceState::Stopped || s == InstanceState::Crashed
}

/// Whether an instance in state `s` may be killed.
pub fn killable(s: InstanceState) -> (r: bool)
    ensures
        r == is_killable(s),
{
    s == InstanceState::Running || s == InstanceState::Stopping || s == InstanceState::StoppingTimedOut
}

/// The console note written when a stop times out.
pub open spec fn stop_timeout_text(id: Seq<char>) -> Seq<char> {
    "instance "@ + id
        + " has not stopped within 60 seconds, waiting for user decision to force kill"@
}

/// The exit code that is reported: the process's own, or -1 when it has none.
pub open spec fn reported_code(code: Option<i32>) -> int {
    match code {
        Some(c) => c as int,
        None => -1,
    }
}

/// The console note written when the process exits.
pub open spec fn exit_text(id: Seq<char>, code: Option<i32>) -> Seq<char> {
    "instance "@ + id + " exited with code: "@ + int_decimal(reported_code(code))
}

/// The console note written when a stop times out.
pub fn stop_timeout_note(id: &str) -> (text: String)
    ensures
        text@ == stop_timeout_text(id@),
{
    let mut text = String::from_str("instance ");
    text.append(id);
    text.append(" has not stopped within 60 seconds, waiting for user decision to force kill");
    text
}

/// The console note written when the process exits.
pub fn exit_note(id: &str, code: Option<i32>) -> (text: String)
    ensures
        text@ == exit_text(id@, code),
{
    let mut text = String::from_str("instance ");
    text.append(id);
    text.append(" exited with code: ");
    let c: i32 = match code {
        Some(c) => c,
        None => -1,
    };
    push_i32(&mut text, c);
    text
}

/// How to start an instance.
#[derive(Debug)]
pub struct InstanceConfig {
    /// The instance's id; a fresh one is made up when it is absent.
    pub id: Option<String>,
    /// The Java executable.
    pub java_path: String,
    /// Arguments for the virtual machine.
    pub jvm_args: Vec<String>,
    /// The server jar.
    pub jar_path: String,
    /// Arguments for the server.
    pub program_args: Vec<String>,
    /// The directory to start in; the agent's own when absent.
    pub working_dir: Option<String>,
}

/// The command line of an instance, without the program: the JVM arguments, then
/// `-jar` and the jar, then the server's arguments.
pub open spec fn spec_launch_args(jvm: Seq<Seq<char>>, jar: Seq<char>, program: Seq<Seq<char>>) -> Seq<Seq<char>> {
    jvm + seq!["-jar"@, jar] + program
}

/// The launch arguments are the JVM arguments, then `-jar` and the jar, then every server
/// argument in order: nothing is dropped, added or moved.
pub proof fn lemma_launch_args(jvm: Seq<Seq<char>>, jar: Seq<char>, program: Seq<Seq<char>>)
    ensures
        spec_launch_args(jvm, jar, program).len() == jvm.len() + 2 + program.len(),
        forall|k: int| 0 <= k < jvm.len() ==> #[trigger] spec_launch_args(jvm, jar, program)[k] == jvm[k],
        spec_launch_args(jvm, jar, program)[jvm.len() as int] == "-jar"@,
        spec_launch_args(jvm, jar, program)[jvm.len() + 1int] == jar,
        forall|k: int| 0 <= k < program.len()
            ==> #[trigger] spec_launch_args(jvm, jar, program)[jvm.len() + 2 + k] == program[k],
{
    let a = spec_launch_args(jvm, jar, program);
    assert forall|k: int| 0 <= k < jvm.len() implies #[trigger] a[k] == jvm[k] by {}
    assert forall|k: int| 0 <= k < program.len() implies #[trigger] a[jvm.len() + 2 + k] == program[k] by {}
}

/// What starting an instance runs.
#[derive(Debug)]
pub struct LaunchPlan {
    /// The id the new instance is registered under.
    pub id: String,
    /// The executable.
    pub program: String,
    /// Its arguments.
    pub args: Vec<String>,
    /// The directory to start in.
    pub working_dir: Option<String>,
}

/// `plan` is what starting an instance with `config` runs: under the given id, or the
/// UUID made from the random bytes `fresh` when there is none, the Java executable with
/// the launch arguments, in the configured directory.
pub open spec fn is_plan_for(config: InstanceConfig, fresh: Seq<u8>, plan: LaunchPlan) -> bool {
    &&& match config.id {
        Some(given) => plan.id@ == given@,
        None => plan.id@ == uuid_v4_text(fresh),
    }
    &&& plan.program@ == config.java_path@
    &&& plan.args.deep_view() == spec_launch_args(config.jvm_args.deep_view(), config.jar_path@, config.program_args.deep_view())
    &&& plan.working_dir == config.working_dir
}

/// A lower-case hexadecimal digit.
pub open spec fn is_lower_hex(c: char) -> bool {
    (48 <= c as u32 && c as u32 <= 57) || (97 <= c as u32 && c as u32 <= 102)
}

/// The text of a random (version 4, RFC 4122 variant) UUID in hyphenated lower-case form,
/// such as `67e55044-10b1-426f-9247-bb680e5fe0c8`.
pub open spec fn is_v4_uuid_text(s: Seq<char>) -> bool {
    &&& s.len() == 36
    &&& forall|i: int|
        0 <= i < 36 ==> (if i == 8 || i == 13 || i == 18 || i == 23 {
            s[i] == '-'
        } else {
            is_lower_hex(#[trigger] s[i])
        })
    &&& s[14] == '4'
    &&& (s[19] == '8' || s[19] == '9' || s[19] == 'a' || s[19] == 'b')
}

/// Byte `k` of a version 4 UUID made from `random`: byte 6 carries the version (4) in its
/// high nibble and byte 8 the RFC 4122 variant (binary `10`) in its two high bits.
pub open spec fn v4_byte(random: Seq<u8>, k: int) -> int {
    if k == 6 {
        random[6] as int % 16 + 64
    } else if k == 8 {
        random[8] as int % 64 + 128
    } else {
        random[k] as int
    }
}

/// The lower-case hexadecimal digit for `n < 16`.
pub open spec fn hex_digit(n: int) -> char {
    if n < 10 {
        (48 + n) as char
    } else {
        (87 + n) as char
    }
}

/// Digit `j` (of 32) of the UUID made from `random`, high nibble first.
pub open spec fn uuid_digit(random: Seq<u8>, j: int) -> char {
    let b = v4_byte(random, j / 2);
    hex_digit(if j % 2 == 0 { b / 16 } else { b % 16 })
}

/// The hyphenated lower-case text of the version 4 UUID made from the 16 bytes `random`,
/// such as `67e55044-10b1-426f-9247-bb680e5fe0c8`: 32 hexadecimal digits in groups of
/// 8, 4, 4, 4 and 12.
pub open spec fn uuid_v4_text(random: Seq<u8>) -> Seq<char> {
    Seq::new(36, |i: int|
        if i == 8 || i == 13 || i == 18 || i == 23 {
            '-'
        } else if i < 8 {
            uuid_digit(random, i)
        } else if i < 13 {
            uuid_digit(random, i - 1)
        } else if i < 18 {
            uuid_digit(random, i - 2)
        } else if i < 23 {
            uuid_digit(random, i - 3)
        } else {
            uuid_digit(random, i - 4)
        })
}

/// `uuid::Builder::from_random_bytes`, then `into_uuid` and `to_string`: the version 4
/// UUID made from `random` (the crate sets the version bits of byte 6 and the variant
/// bits of byte 8 and keeps every other bit), in the hyphenated lower-case text that its
/// `Display` writes.
#[verifier::external_body]
fn v4_uuid_text(random: [u8; 16]) -> (text: String)
    ensures
        text@ == uuid_v4_text(random@),
{
    uuid::Builder::from_random_bytes(random).into_uuid().to_string()
}

/// Every version 4 UUID text has that shape.
pub proof fn lemma_uuid_v4_text_shape(random: Seq<u8>)
    requires
        random.len() == 16,
    ensures
        is_v4_uuid_text(uuid_v4_text(random)),
{
    let t = uuid_v4_text(random);
    assert forall|j: int| 0 <= j < 32 implies is_lower_hex(#[trigger] uuid_digit(random, j)) by {
        let b = v4_byte(random, j / 2);
        assert(0 <= b < 256);
        let n = if j % 2 == 0 { b / 16 } else { b % 16 };
        assert(0 <= n < 16);
    }
    assert forall|i: int| 0 <= i < 36 implies (if i == 8 || i == 13 || i == 18 || i == 23 {
        t[i] == '-'
    } else {
        is_lower_hex(#[trigger] t[i])
    }) by {
        if i < 8 {
            assert(t[i] == uuid_digit(random, i));
        } else if 8 < i < 13 {
            assert(t[i] == uuid_digit(random, i - 1));
        } else if 13 < i < 18 {
            assert(t[i] == uuid_digit(random, i - 2));
        } else if 18 < i < 23 {
            assert(t[i] == uuid_digit(random, i - 3));
        } else if 23 < i {
            assert(t[i] == uuid_digit(random, i - 4));
        }
    }
    assert(t[14] == uuid_digit(random, 12));
    assert(v4_byte(random, 6) / 16 == 4);
    assert(t[19] == uuid_digit(random, 16));
    let v = v4_byte(random, 8) / 16;
    assert(8 <= v < 12);
}

fn clone_strings_into(out: &mut Vec<String>, src: &Vec<String>)
    ensures
        final(out).deep_view() == old(out).deep_view() + src.deep_view(),
{
    let ghost start = out.deep_view();
    let mut i: usize = 0;
    while i < src.len()
        invariant
            i <= src.len(),
            out.deep_view() == start + src.deep_view().take(i as int),
        decreases src.len() - i,
    {
        let ghost prev = out.deep_view();
        out.push(src[i].clone());
        assert(out.deep_view() =~= prev.push(src@[i as int]@));
        assert(src.deep_view().take(i + 1) =~= src.deep_view().take(i as int).push(src@[i as int]@));
        i += 1;
    }
    assert(src.deep_view().take(src.len() as int) =~= src.deep_view());
}

impl InstanceConfig {
    /// The id of the instance: the given one, or else the version 4 UUID made from the
    /// random bytes `fresh`.
    pub fn resolve_id(&self, fresh: [u8; 16]) -> (id: String)
        ensures
            match self.id {
                Some(given) => id@ == given@,
                None => id@ == uuid_v4_text(fresh@),
            },
    {
        match &self.id {
            Some(given) => given.clone(),
            None => v4_uuid_text(fresh),
        }
    }

    /// The arguments the Java executable is started with.
    pub fn launch_args(&self) -> (args: Vec<String>)
        ensures
            args.deep_view() == spec_launch_args(self.jvm_args.deep_view(), self.jar_path@, self.program_args.deep_view()),
            args@.len() == self.jvm_args@.len() + 2 + self.program_args@.len(),
            forall|k: int| 0 <= k < self.jvm_args@.len() ==> (#[trigger] args@[k])@ == self.jvm_args@[k]@,
            args@[self.jvm_args@.len() as int]@ == "-jar"@,
            args@[self.jvm_args@.len() + 1int]@ == self.jar_path@,
            forall|k: int| 0 <= k < self.program_args@.len()
                ==> (#[trigger] args@[self.jvm_args@.len() + 2 + k])@ == self.program_args@[k]@,
    {
        let mut args: Vec<String> = Vec::new();
        clone_strings_into(&mut args, &self.jvm_args);
        let ghost before = args.deep_view();
        args.push(String::from_str("-jar"));
        let ghost mid = args.deep_view();
        assert(mid =~= before.push("-jar"@));
        args.push(self.jar_path.clone());
        assert(args.deep_view() =~= mid.push(self.jar_path@));
        assert(args.deep_view() =~= before + seq!["-jar"@, self.jar_path@]);
        clone_strings_into(&mut args, &self.program_args);
        proof {
            lemma_launch_args(self.jvm_args.deep_view(), self.jar_path@, self.program_args.deep_view());
            let n: int = self.jvm_args@.len() as int;
            assert forall|k: int| 0 <= k < n implies (#[trigger] args@[k])@ == self.jvm_args@[k]@ by {
                assert(args.deep_view()[k] == args@[k]@);
                assert(self.jvm_args.deep_view()[k] == self.jvm_args@[k]@);
            }
            assert(args.deep_view()[n] == args@[n]@);
            assert(args.deep_view()[n + 1] == args@[n + 1]@);
            assert forall|k: int| 0 <= k < self.program_args@.len()
                implies (#[trigger] args@[n + 2 + k])@ == self.program_args@[k]@ by {
                assert(args.deep_view()[n + 2 + k] == args@[n + 2 + k]@);
                assert(self.program_args.deep_view()[k] == self.program_args@[k]@);
            }
        }
        args
    }

    /// What to run for this configuration, and under which id (the given one, or else
    /// the UUID made from the random bytes `fresh`).
    pub fn launch_plan(&self, fresh: [u8; 16]) -> (plan: LaunchPlan)
        ensures
            is_plan_for(*self, fresh@, plan),
    {
        let id = self.resolve_id(fresh);
        let working_dir = match &self.working_dir {
            Some(dir) => Some(dir.clone()),
            None => None,
        };
        LaunchPlan { id, program: self.java_path.clone(), args: self.launch_args(), working_dir }
    }
}

/// How a stop that was waited for ended.
#[derive(Debug, Clone, Copy, PartialEq, Eq, Structural)]
pub enum StopOutcome {
    /// The process exited within the wait; `success` tells whether its status was a success.
    Exited { success: bool },
    /// The process did not exit within the wait, or waiting for it failed.
    TimedOut,
}

/// What watching a process end reported.
#[derive(Debug, Clone, Copy, PartialEq, Eq, Structural)]
pub enum ExitReport {
    /// The process exited; `code` is its exit code where it has one.
    Exited { success: bool, code: Option<i32> },
    /// Waiting for the process failed.
    WaitFailed,
}

/// An instance of the server, as the agent tracks it. The process and its standard
/// input are held by the caller; `has_child` and `has_stdin` tell whether they still are.
pub struct ManagedInstance {
    pub id: String,
    /// Tells this instance apart from an earlier one registered under the same id.
    pub serial: u64,
    pub state: InstanceState,
    pub has_child: bool,
    pub has_stdin: bool,
    pub console: ConsoleBus,
}

/// `new` is the bus `old` after `line` was pushed: recorded in the backlog and sent on
/// the same channel.
pub open spec fn pushed_on(old: ConsoleBus, new: ConsoleBus, line: ConsoleLine) -> bool {
    &&& new@ == pushed_backlog(old@, line)
    &&& sent_lines(new.channel()) == sent_lines(old.channel()).push(line)
    &&& sender_channel(new.channel()) == sender_channel(old.channel())
    &&& new.owner() == old.owner()
}

/// `new` is the bus `old` after a line was pushed that was written at `timestamp` to
/// `stream` and reads `text`.
pub open spec fn pushed_note(
    old: ConsoleBus,
    new: ConsoleBus,
    timestamp: u64,
    stream: ConsoleStream,
    text: Seq<char>,
) -> bool {
    &&& new@.len() > 0
    &&& pushed_on(old, new, new@.last())
    &&& new@.last().timestamp == timestamp
    &&& new@.last().stream == stream
    &&& new@.last().line@ == text
}

impl ManagedInstance {
    /// The console backlog is within its bound, the console is tagged with this
    /// instance's serial, and the instance holds the input of a process only while it
    /// holds the process.
    pub open spec fn wf(&self) -> bool {
        &&& self.console.wf()
        &&& self.console.owner() == self.serial
        &&& self.has_stdin ==> self.has_child
    }

    /// This instance in state `s`, with everything else kept.
    pub open spec fn with_state(self, s: InstanceState) -> ManagedInstance {
        ManagedInstance {
            id: self.id,
            serial: self.serial,
            state: s,
            has_child: self.has_child,
            has_stdin: self.has_stdin,
            console: self.console,
        }
    }

    /// This instance in state `s`, no longer holding its process or its input.
    pub open spec fn released(self, s: InstanceState) -> ManagedInstance {
        ManagedInstance {
            id: self.id,
            serial: self.serial,
            state: s,
            has_child: false,
            has_stdin: false,
            console: self.console,
        }
    }

    /// `new` is `self` with only its state and console changed.
    pub open spec fn same_but_state_console(self, new: ManagedInstance) -> bool {
        &&& new.id == self.id
        &&& new.serial == self.serial
        &&& new.has_child == self.has_child
        &&& new.has_stdin == self.has_stdin
    }

    /// The state after the process printed a line: a starting instance, which waits for
    /// its first output, is running.
    pub open spec fn state_after_output(s: InstanceState) -> InstanceState {
        if s == InstanceState::Starting {
            InstanceState::Running
        } else {
            s
        }
    }

    /// A freshly started instance: its process and input are held, nothing was printed yet.
    pub fn start(id: String, serial: u64) -> (inst: Self)
        ensures
            inst.wf(),
            inst.id == id,
            inst.serial == serial,
            inst.state == InstanceState::Starting,
            inst.has_child,
            inst.has_stdin,
            inst.console@ == Seq::<ConsoleLine>::empty(),
            sent_lines(inst.console.channel()) == Seq::<ConsoleLine>::empty(),
    {
        ManagedInstance {
            id,
            serial,
            state: InstanceState::Starting,
            has_child: true,
            has_stdin: true,
            console: ConsoleBus::with_owner(serial),
        }
    }

    /// The text to write to the process's input for the command `line`: the line and a
    /// newline. Refused when the instance has no input.
    pub fn send_console(&self, line: &str) -> (r: Result<String, AgentError>)
        ensures
            self.has_stdin ==> (r matches Ok(text) && text@ == line@ + "\n"@),
            !self.has_stdin ==> (r matches Err(AgentError::NoStdin { id }) && id@ == self.id@),
    {
        if self.has_stdin {
            let mut text = String::from_str(line);
            text.append("\n");
            Ok(text)
        } else {
            Err(AgentError::NoStdin { id: self.id.clone() })
        }
    }

    /// Begins a graceful stop: a running instance goes to `Stopping`. The caller then
    /// sends it `stop` and waits for the process; `NoChild` says there is none to wait for.
    pub fn stop(&mut self) -> (r: Result<(), AgentError>)
        ensures
            old(self).state != InstanceState::Running ==> {
                &&& *final(self) == *old(self)
                &&& r matches Err(AgentError::NotRunning { id, state })
                &&& id@ == old(self).id@
                &&& state == old(self).state
            },
            old(self).state == InstanceState::Running ==> {
                &&& *final(self) == old(self).with_state(InstanceState::Stopping)
                &&& old(self).has_child ==> r is Ok
                &&& !old(self).has_child ==> r matches Err(AgentError::NoChild)
            },
    {
        if self.state != InstanceState::Running {
            return Err(AgentError::NotRunning { id: self.id.clone(), state: self.state });
        }
        self.state = InstanceState::Stopping;
        if self.has_child {
            Ok(())
        } else {
            Err(AgentError::NoChild)
        }
    }

    /// Ends a graceful stop: an exit within the wait stops (or, on failure, crashes) the
    /// instance and lets go of its process; otherwise the instance waits for a decision
    /// in `StoppingTimedOut`, and its console says so.
    pub fn finish_stop(&mut self, outcome: StopOutcome, now: u64)
        requires
            old(self).wf(),
        ensures
            final(self).wf(),
            match outcome {
                StopOutcome::Exited { success } => *final(self) == old(self).released(
                    if success { InstanceState::Stopped } else { InstanceState::Crashed },
                ),
                StopOutcome::TimedOut => {
                    &&& old(self).same_but_state_console(*final(self))
                    &&& final(self).state == InstanceState::StoppingTimedOut
                    &&& pushed_note(old(self).console, final(self).console, now, ConsoleStream::System, stop_timeout_text(old(self).id@))
                },
            },
    {
        match outcome {
            StopOutcome::Exited { success } => {
                self.state = if success { InstanceState::Stopped } else { InstanceState::Crashed };
                self.has_child = false;
                self.has_stdin = false;
            },
            StopOutcome::TimedOut => {
                self.state = InstanceState::StoppingTimedOut;
                let line = stop_timeout_note(self.id.as_str());
                self.console.push(ConsoleLine { timestamp: now, stream: ConsoleStream::System, line });
            },
        }
    }

    /// Begins a forced kill, allowed while running or stopping. With a process held,
    /// `Ok(true)` asks the caller to kill it and then call `mark_killed`; with none,
    /// the instance is stopped at once and `Ok(false)` returned.
    pub fn kill(&mut self) -> (r: Result<bool, AgentError>)
        ensures
            !is_killable(old(self).state) ==> {
                &&& *final(self) == *old(self)
                &&& r matches Err(AgentError::CannotKill { id, state })
                &&& id@ == old(self).id@
                &&& state == old(self).state
            },
            is_killable(old(self).state) && old(self).has_child ==> {
                &&& *final(self) == *old(self)
                &&& r == Ok::<bool, AgentError>(true)
            },
            is_killable(old(self).state) && !old(self).has_child ==> {
                &&& *final(self) == old(self).released(InstanceState::Stopped)
                &&& r == Ok::<bool, AgentError>(false)
            },
    {
        if !killable(self.state) {
            return Err(AgentError::CannotKill { id: self.id.clone(), state: self.state });
        }
        if self.has_child {
            Ok(true)
        } else {
            self.mark_killed();
            Ok(false)
        }
    }

    /// The process was killed: the instance is stopped and lets go of it.
    pub fn mark_killed(&mut self)
        ensures
            *final(self) == old(self).released(InstanceState::Stopped),
    {
        self.state = InstanceState::Stopped;
        self.has_child = false;
        self.has_stdin = false;
    }

    /// The process printed `line` on its standard output at `now`: a starting instance
    /// becomes running on this first output, and the line enters the console.
    pub fn on_stdout_line(&mut self, line: String, now: u64)
        requires
            old(self).wf(),
        ensures
            final(self).wf(),
            old(self).same_but_state_console(*final(self)),
            final(self).state == Self::state_after_output(old(self).state),
            old(self).state == InstanceState::Starting ==> final(self).state == InstanceState::Running,
            old(self).state != InstanceState::Starting ==> final(self).state == old(self).state,
            pushed_on(
                old(self).console,
                final(self).console,
                ConsoleLine { timestamp: now, stream: ConsoleStream::Stdout, line },
            ),
    {
        if self.state == InstanceState::Starting {
            self.state = InstanceState::Running;
        }
        self.console.push(ConsoleLine { timestamp: now, stream: ConsoleStream::Stdout, line });
    }

    /// The process printed `line` on its standard error at `now`: the line enters the console.
    pub fn on_stderr_line(&mut self, line: String, now: u64)
        requires
            old(self).wf(),
        ensures
            final(self).wf(),
            old(self).same_but_state_console(*final(self)),
            final(self).state == old(self).state,
            pushed_on(
                old(self).console,
                final(self).console,
                ConsoleLine { timestamp: now, stream: ConsoleStream::Stderr, line },
            ),
    {
        self.console.push(ConsoleLine { timestamp: now, stream: ConsoleStream::Stderr, line });
    }

    /// The process ended (see `exit_step`): a successful exit stops the instance and any
    /// other crashes it; after an exit the instance lets go of the process and its console
    /// tells the code. When waiting failed the instance is marked crashed and nothing else
    /// changes. An instance that no longer holds its process (it was killed or its stop
    /// was seen through) is left as it is.
    pub fn on_exit(&mut self, report: ExitReport, now: u64)
        requires
            old(self).wf(),
        ensures
            final(self).wf(),
            exit_step(*old(self), *final(self), report, now),
            match report {
                ExitReport::Exited { success, .. } => old(self).has_child ==> final(self).state == (
                    if success { InstanceState::Stopped } else { InstanceState::Crashed }),
                ExitReport::WaitFailed => old(self).has_child ==> final(self).state == InstanceState::Crashed,
            },
    {
        if !self.has_child {
            return;
        }
        match report {
            ExitReport::Exited { success, code } => {
                self.state = if success { InstanceState::Stopped } else { InstanceState::Crashed };
                let line = exit_note(self.id.as_str(), code);
                self.console.push(ConsoleLine { timestamp: now, stream: ConsoleStream::System, line });
                self.has_child = false;
                self.has_stdin = false;
            },
            ExitReport::WaitFailed => {
                self.state = InstanceState::Crashed;
            },
        }
    }
}

/// `new` is `old` after its process was reported ended at `now`.
pub open spec fn exit_step(old: ManagedInstance, new: ManagedInstance, report: ExitReport, now: u64) -> bool {
    if !old.has_child {
        new == old
    } else {
        match report {
            ExitReport::Exited { success, code } => {
                &&& new.id == old.id
                &&& new.serial == old.serial
                &&& new.state == (if success { InstanceState::Stopped } else { InstanceState::Crashed })
                &&& !new.has_child
                &&& !new.has_stdin
                &&& pushed_note(old.console, new.console, now, ConsoleStream::System, exit_text(old.id@, code))
            },
            ExitReport::WaitFailed => new == old.with_state(InstanceState::Crashed),
        }
    }
}

/// `new` is `old` after its process printed `line`.
pub open spec fn output_step(old: ManagedInstance, new: ManagedInstance, line: ConsoleLine) -> bool {
    &&& old.same_but_state_console(new)
    &&& new.state == (if line.stream == ConsoleStream::Stdout {
        ManagedInstance::state_after_output(old.state)
    } else {
        old.state
    })
    &&& pushed_on(old.console, new.console, line)
}

/// What an event from the process of the instance `id` with `serial` does, where `step`
/// relates the instance before and after: the registered instance with that id and serial
/// takes it; failing that, the replaced instance with that serial; failing that, nothing
/// changes. `live` and `aside` are the registered and the replaced instances before,
/// `live2` and `aside2` after.
pub open spec fn event_step(
    live: Seq<ManagedInstance>,
    aside: Seq<ManagedInstance>,
    live2: Seq<ManagedInstance>,
    aside2: Seq<ManagedInstance>,
    id: Seq<char>,
    serial: u64,
    step: spec_fn(ManagedInstance, ManagedInstance) -> bool,
) -> bool {
    match live_index(live, id, serial) {
        Some(i) => {
            &&& live2 == live.update(i, live2[i])
            &&& step(live[i], live2[i])
            &&& aside2 == aside
        },
        None => {
            &&& live2 == live
            &&& match serial_index(aside, serial) {
                Some(k) => aside2 == aside.update(k, aside2[k]) && step(aside[k], aside2[k]),
                None => aside2 == aside,
            }
        },
    }
}

/// No two instances share an id.
pub open spec fn ids_unique(s: Seq<ManagedInstance>) -> bool {
    forall|i: int, j: int| 0 <= i < s.len() && 0 <= j < s.len() && i != j ==> s[i].id@ != s[j].id@
}

/// Some instance has the id `id`.
pub open spec fn has_id(s: Seq<ManagedInstance>, id: Seq<char>) -> bool {
    exists|i: int| 0 <= i < s.len() && #[trigger] s[i].id@ == id
}

/// Where the instance with the id `id` stands, if there is one.
pub open spec fn index_of(s: Seq<ManagedInstance>, id: Seq<char>) -> Option<int> {
    if has_id(s, id) {
        Some(choose|i: int| 0 <= i < s.len() && #[trigger] s[i].id@ == id)
    } else {
        None
    }
}

/// Where the instance with the id `id` and the serial `serial` stands, if there is one.
pub open spec fn live_index(s: Seq<ManagedInstance>, id: Seq<char>, serial: u64) -> Option<int> {
    match index_of(s, id) {
        Some(i) => if s[i].serial == serial { Some(i) } else { None },
        None => None,
    }
}

/// The ids of the instances that satisfy `p`, in order.
pub open spec fn ids_where(s: Seq<ManagedInstance>, p: spec_fn(ManagedInstance) -> bool) -> Seq<Seq<char>>
    decreases s.len(),
{
    if s.len() == 0 {
        Seq::empty()
    } else {
        let rest = ids_where(s.drop_last(), p);
        if p(s.last()) {
            rest.push(s.last().id@)
        } else {
            rest
        }
    }
}

/// The state an instance is left in when the agent begins to shut down.
pub open spec fn shutdown_state(s: InstanceState) -> InstanceState {
    if is_stoppable_on_shutdown(s) {
        InstanceState::Stopping
    } else {
        s
    }
}

/// The ids of the instances that shutting down sends the stop command, in order.
pub open spec fn shutdown_targets(s: Seq<ManagedInstance>) -> Seq<Seq<char>> {
    ids_where(s, |m: ManagedInstance| is_stoppable_on_shutdown(m.state))
}

/// The serials of the instances that satisfy `p`, in order.
pub open spec fn serials_where(s: Seq<ManagedInstance>, p: spec_fn(ManagedInstance) -> bool) -> Seq<u64>
    decreases s.len(),
{
    if s.len() == 0 {
        Seq::empty()
    } else {
        let rest = serials_where(s.drop_last(), p);
        if p(s.last()) {
            rest.push(s.last().serial)
        } else {
            rest
        }
    }
}

/// The serials of the instances of `s` whose process has not ended and whose serial is
/// among `serials`, in order.
pub open spec fn unfinished_among_serials(s: Seq<ManagedInstance>, serials: Seq<u64>) -> Seq<u64> {
    serials_where(s, |m: ManagedInstance| !is_finished(m.state) && serials.contains(m.serial))
}

proof fn lemma_serials_where_step(s: Seq<ManagedInstance>, p: spec_fn(ManagedInstance) -> bool, i: int)
    requires
        0 <= i < s.len(),
    ensures
        serials_where(s.take(i + 1), p) == (if p(s[i]) {
            serials_where(s.take(i), p).push(s[i].serial)
        } else {
            serials_where(s.take(i), p)
        }),
{
    assert(s.take(i + 1).drop_last() =~= s.take(i));
}

/// What a forced kill decides for the instance `a`, leaving it as `b`; `r` asks for its
/// process to be killed: refused (nothing changes) unless running or stopping; with a
/// process held, the caller kills it; without one, the instance is stopped at once.
pub open spec fn kill_effect(a: ManagedInstance, b: ManagedInstance, r: bool) -> bool {
    if !is_killable(a.state) {
        b == a && !r
    } else if a.has_child {
        b == a && r
    } else {
        b == a.released(InstanceState::Stopped) && !r
    }
}

/// What an operation on the instance with `serial` does, wherever it is held, where `step`
/// relates the instance before and after: the registered one with that serial, failing
/// that the replaced one, failing that nothing changes.
pub open spec fn held_step(
    live: Seq<ManagedInstance>,
    aside: Seq<ManagedInstance>,
    live2: Seq<ManagedInstance>,
    aside2: Seq<ManagedInstance>,
    serial: u64,
    step: spec_fn(ManagedInstance, ManagedInstance) -> bool,
) -> bool {
    match serial_index(live, serial) {
        Some(i) => {
            &&& live2 == live.update(i, live2[i])
            &&& step(live[i], live2[i])
            &&& aside2 == aside
        },
        None => {
            &&& live2 == live
            &&& match serial_index(aside, serial) {
                Some(k) => aside2 == aside.update(k, aside2[k]) && step(aside[k], aside2[k]),
                None => aside2 == aside,
            }
        },
    }
}

proof fn lemma_ids_where_step(s: Seq<ManagedInstance>, p: spec_fn(ManagedInstance) -> bool, i: int)
    requires
        0 <= i < s.len(),
    ensures
        ids_where(s.take(i + 1), p) == (if p(s[i]) {
            ids_where(s.take(i), p).push(s[i].id@)
        } else {
            ids_where(s.take(i), p)
        }),
{
    assert(s.take(i + 1).drop_last() =~= s.take(i));
}

/// `new` is `old` after shutting down began: every running or starting instance is
/// stopping, and nothing else changed.
pub open spec fn shutdown_step(old: Seq<ManagedInstance>, new: Seq<ManagedInstance>) -> bool {
    &&& new.len() == old.len()
    &&& forall|i: int| 0 <= i < old.len() ==> #[trigger] new[i] == (
        if is_stoppable_on_shutdown(old[i].state) {
            old[i].with_state(InstanceState::Stopping)
        } else {
            old[i]
        })
}

/// A state change that the life cycle allows: staying; `Starting` to `Running`; a
/// running or starting instance to `Stopping`; `Stopping` to `StoppingTimedOut`; and any
/// state to `Stopped` or `Crashed` when the process ends or is killed.
pub open spec fn lifecycle_allows(a: InstanceState, b: InstanceState) -> bool {
    ||| a == b
    ||| (a == InstanceState::Starting && b == InstanceState::Running)
    ||| ((a == InstanceState::Running || a == InstanceState::Starting) && b == InstanceState::Stopping)
    ||| (a == InstanceState::Stopping && b == InstanceState::StoppingTimedOut)
    ||| is_finished(b)
}

/// A freshly registered instance under `id` with the serial `serial`.
pub open spec fn is_fresh(inst: ManagedInstance, id: String, serial: u64) -> bool {
    &&& inst.wf()
    &&& inst.id == id
    &&& inst.serial == serial
    &&& inst.state == InstanceState::Starting
    &&& inst.has_child
    &&& inst.has_stdin
    &&& inst.console@ == Seq::<ConsoleLine>::empty()
    &&& sent_lines(inst.console.channel()) == Seq::<ConsoleLine>::empty()
}

/// Whether `serial` is among `serials`.
fn contains_serial(serials: &Vec<u64>, serial: u64) -> (r: bool)
    ensures
        r == serials@.contains(serial),
{
    let mut i: usize = 0;
    while i < serials.len()
        invariant
            i <= serials@.len(),
            forall|j: int| 0 <= j < i ==> serials@[j] != serial,
        decreases serials.len() - i,
    {
        if serials[i] == serial {
            assert(serials@[i as int] == serial);
            return true;
        }
        i += 1;
    }
    false
}

/// No two instances share a serial.
pub open spec fn serials_unique(s: Seq<ManagedInstance>) -> bool {
    forall|i: int, j: int| 0 <= i < s.len() && 0 <= j < s.len() && i != j ==> s[i].serial != s[j].serial
}

/// Every serial of `s` was issued before `issued`.
pub open spec fn serials_below(s: Seq<ManagedInstance>, issued: u64) -> bool {
    forall|i: int| 0 <= i < s.len() ==> (#[trigger] s[i]).serial < issued
}

/// Some instance of `d` has the serial `serial`.
pub open spec fn has_serial(d: Seq<ManagedInstance>, serial: u64) -> bool {
    exists|k: int| 0 <= k < d.len() && #[trigger] d[k].serial == serial
}

/// Where the instance with the serial `serial` stands in `d`, if there is one.
pub open spec fn serial_index(d: Seq<ManagedInstance>, serial: u64) -> Option<int> {
    if has_serial(d, serial) {
        Some(choose|k: int| 0 <= k < d.len() && #[trigger] d[k].serial == serial)
    } else {
        None
    }
}

/// With unique serials, an instance that has the serial `serial` is the one
/// `serial_index` finds.
proof fn lemma_serial_index(d: Seq<ManagedInstance>, serial: u64, k: int)
    requires
        serials_unique(d),
        0 <= k < d.len(),
        d[k].serial == serial,
    ensures
        serial_index(d, serial) == Some(k),
{
    assert(has_serial(d, serial));
}

/// The instances of the first part of a sequence with unique serials have unique serials.
proof fn lemma_head_serials_unique(s: Seq<ManagedInstance>, d: Seq<ManagedInstance>)
    requires
        serials_unique(s + d),
    ensures
        serials_unique(s),
{
    let t = s + d;
    assert forall|a: int, b: int| 0 <= a < s.len() && 0 <= b < s.len() && a != b
        implies s[a].serial != s[b].serial by {
        assert(t[a] == s[a]);
        assert(t[b] == s[b]);
    }
}

/// The instances of a part of a sequence with unique serials have unique serials.
proof fn lemma_tail_serials_unique(s: Seq<ManagedInstance>, d: Seq<ManagedInstance>)
    requires
        serials_unique(s + d),
    ensures
        serials_unique(d),
{
    let t = s + d;
    assert forall|a: int, b: int| 0 <= a < d.len() && 0 <= b < d.len() && a != b
        implies d[a].serial != d[b].serial by {
        assert(t[s.len() + a] == d[a]);
        assert(t[s.len() + b] == d[b]);
    }
}

/// Keeping every serial where it stands keeps serials unique and issued.
proof fn lemma_same_serials(t: Seq<ManagedInstance>, u: Seq<ManagedInstance>, issued: u64)
    requires
        t.len() == u.len(),
        forall|k: int| 0 <= k < t.len() ==> #[trigger] u[k].serial == t[k].serial,
        serials_unique(t),
        serials_below(t, issued),
    ensures
        serials_unique(u),
        serials_below(u, issued),
{
    assert forall|a: int, b: int| 0 <= a < u.len() && 0 <= b < u.len() && a != b
        implies u[a].serial != u[b].serial by {
        assert(u[a].serial == t[a].serial);
        assert(u[b].serial == t[b].serial);
    }
    assert forall|k: int| 0 <= k < u.len() implies (#[trigger] u[k]).serial < issued by {
        assert(u[k].serial == t[k].serial);
    }
}

/// Removing an instance keeps serials unique and issued.
proof fn lemma_remove_serials(t: Seq<ManagedInstance>, i: int, issued: u64)
    requires
        0 <= i < t.len(),
        serials_unique(t),
        serials_below(t, issued),
    ensures
        serials_unique(t.remove(i)),
        serials_below(t.remove(i), issued),
{
    let r = t.remove(i);
    assert forall|a: int, b: int| 0 <= a < r.len() && 0 <= b < r.len() && a != b
        implies r[a].serial != r[b].serial by {
        assert(r[a] == t[if a < i { a } else { a + 1 }]);
        assert(r[b] == t[if b < i { b } else { b + 1 }]);
    }
    assert forall|k: int| 0 <= k < r.len() implies (#[trigger] r[k]).serial < issued by {
        assert(r[k] == t[if k < i { k } else { k + 1 }]);
    }
}

/// Updating a registered instance in place without changing its id or serial keeps ids
/// and serials unique and issued.
proof fn lemma_update_keeps_keys(
    s: Seq<ManagedInstance>,
    d: Seq<ManagedInstance>,
    i: int,
    inst: ManagedInstance,
    issued: u64,
)
    requires
        0 <= i < s.len(),
        inst.id == s[i].id,
        inst.serial == s[i].serial,
        ids_unique(s),
        serials_unique(s + d),
        serials_below(s + d, issued),
    ensures
        ids_unique(s.update(i, inst)),
        serials_unique(s.update(i, inst) + d),
        serials_below(s.update(i, inst) + d, issued),
{
    let u = s.update(i, inst);
    assert forall|k: int| 0 <= k < s.len() implies #[trigger] u[k].id == s[k].id && u[k].serial == s[k].serial by {}
    assert(u + d =~= (s + d).update(i, inst));
    lemma_same_serials(s + d, u + d, issued);
}

/// Updating a replaced instance in place without changing its serial keeps serials
/// unique and issued.
proof fn lemma_detached_update(
    s: Seq<ManagedInstance>,
    d: Seq<ManagedInstance>,
    k: int,
    inst: ManagedInstance,
    issued: u64,
)
    requires
        0 <= k < d.len(),
        inst.serial == d[k].serial,
        serials_unique(s + d),
        serials_below(s + d, issued),
    ensures
        serials_unique(s + d.update(k, inst)),
        serials_below(s + d.update(k, inst), issued),
{
    assert(s + d.update(k, inst) =~= (s + d).update(s.len() + k, inst));
    lemma_same_serials(s + d, s + d.update(k, inst), issued);
}

/// Removing a registered instance keeps ids and serials unique and issued.
proof fn lemma_remove_keeps_keys(s: Seq<ManagedInstance>, d: Seq<ManagedInstance>, i: int, issued: u64)
    requires
        0 <= i < s.len(),
        ids_unique(s),
        serials_unique(s + d),
        serials_below(s + d, issued),
    ensures
        ids_unique(s.remove(i)),
        serials_unique(s.remove(i) + d),
        serials_below(s.remove(i) + d, issued),
        forall|k: int| 0 <= k < s.remove(i).len() ==> #[trigger] s.remove(i)[k] == s[if k < i { k } else { k + 1 }],
{
    let r = s.remove(i);
    assert forall|k: int| 0 <= k < r.len() implies #[trigger] r[k] == s[if k < i { k } else { k + 1 }] by {}
    assert forall|a: int, b: int| 0 <= a < r.len() && 0 <= b < r.len() && a != b
        implies r[a].id@ != r[b].id@ by {
        assert(r[a] == s[if a < i { a } else { a + 1 }]);
        assert(r[b] == s[if b < i { b } else { b + 1 }]);
    }
    assert(r + d =~= (s + d).remove(i));
    lemma_remove_serials(s + d, i, issued);
}

/// Removing a replaced instance keeps serials unique and issued.
proof fn lemma_detached_remove(s: Seq<ManagedInstance>, d: Seq<ManagedInstance>, k: int, issued: u64)
    requires
        0 <= k < d.len(),
        serials_unique(s + d),
        serials_below(s + d, issued),
    ensures
        serials_unique(s + d.remove(k)),
        serials_below(s + d.remove(k), issued),
{
    assert(s + d.remove(k) =~= (s + d).remove(s.len() + k));
    lemma_remove_serials(s + d, s.len() + k, issued);
}

/// With unique ids, an instance that has the id `id` is the one `index_of` finds.
pub proof fn lemma_index_of(s: Seq<ManagedInstance>, id: Seq<char>, i: int)
    requires
        ids_unique(s),
        0 <= i < s.len(),
        s[i].id@ == id,
    ensures
        index_of(s, id) == Some(i),
{
    assert(has_id(s, id));
}

/// What `index_of` finds has the id it was asked for.
pub proof fn lemma_index_of_valid(s: Seq<ManagedInstance>, id: Seq<char>)
    ensures
        index_of(s, id) matches Some(i) ==> 0 <= i < s.len() && s[i].id@ == id,
{
}

/// The instances the agent holds: those registered, and those replaced by a later
/// instance under the same id, which stay until their process and its output have ended.
pub struct InstanceManager {
    instances: Vec<ManagedInstance>,
    detached: Vec<ManagedInstance>,
    next_serial: u64,
}

impl View for InstanceManager {
    type V = Seq<ManagedInstance>;

    closed spec fn view(&self) -> Seq<ManagedInstance> {
        self.instances@
    }
}

impl InstanceManager {
    /// The next serial to be issued: every serial issued so far is below it.
    pub closed spec fn issued(&self) -> u64 {
        self.next_serial
    }

    /// The instances that were replaced by a later one under the same id and whose
    /// process or output has not ended yet.
    pub closed spec fn detached(&self) -> Seq<ManagedInstance> {
        self.detached@
    }

    /// Every instance held: the registered ones, then the replaced ones.
    pub open spec fn everything(&self) -> Seq<ManagedInstance> {
        self@ + self.detached()
    }

    /// Registered ids are unique; serials are unique over every instance held and were
    /// issued; every instance is well formed.
    pub open spec fn wf(&self) -> bool {
        &&& ids_unique(self@)
        &&& serials_unique(self.everything())
        &&& serials_below(self.everything(), self.issued())
        &&& forall|i: int| 0 <= i < self@.len() ==> (#[trigger] self@[i]).wf()
        &&& forall|k: int| 0 <= k < self.detached().len() ==> (#[trigger] self.detached()[k]).wf()
    }

    /// A manager without instances.
    pub fn new() -> (m: Self)
        ensures
            m.wf(),
            m@ == Seq::<ManagedInstance>::empty(),
            m.detached() == Seq::<ManagedInstance>::empty(),
            m.issued() == 0,
    {
        let m = InstanceManager { instances: Vec::new(), detached: Vec::new(), next_serial: 0 };
        assert(m.everything() =~= Seq::<ManagedInstance>::empty());
        m
    }

    /// Whether a serial is left to register another instance under. Only after
    /// `u64::MAX` registrations is none left.
    pub fn can_register(&self) -> (r: bool)
        ensures
            r == (self.issued() < u64::MAX),
    {
        self.next_serial < u64::MAX
    }

    /// Where the instance with the id `id` stands.
    fn position(&self, id: &str) -> (r: Option<usize>)
        requires
            self.wf(),
        ensures
            match r {
                Some(i) => index_of(self@, id@) == Some(i as int),
                None => index_of(self@, id@) is None,
            },
    {
        let key = String::from_str(id);
        let mut i: usize = 0;
        while i < self.instances.len()
            invariant
                self.wf(),
                i <= self.instances@.len(),
                key@ == id@,
                forall|j: int| 0 <= j < i ==> self.instances@[j].id@ != id@,
            decreases self.instances.len() - i,
        {
            if self.instances[i].id == key {
                proof {
                    lemma_index_of(self@, id@, i as int);
                }
                return Some(i);
            }
            i += 1;
        }
        proof {
            lemma_index_of_valid(self@, id@);
        }
        None
    }

    /// Where the instance with the id `id` and the serial `serial` stands.
    fn live_position(&self, id: &str, serial: u64) -> (r: Option<usize>)
        requires
            self.wf(),
        ensures
            match r {
                Some(i) => live_index(self@, id@, serial) == Some(i as int),
                None => live_index(self@, id@, serial) is None,
            },
    {
        match self.position(id) {
            Some(i) => {
                proof {
                    lemma_index_of_valid(self@, id@);
                }
                if self.instances[i].serial == serial {
                    Some(i)
                } else {
                    None
                }
            },
            None => None,
        }
    }

    /// The instance with the id `id`.
    pub fn lookup(&self, id: &str) -> (r: Option<&ManagedInstance>)
        requires
            self.wf(),
        ensures
            match index_of(self@, id@) {
                Some(i) => r matches Some(inst) && *inst == self@[i],
                None => r is None,
            },
    {
        proof {
            lemma_index_of_valid(self@, id@);
        }
        match self.position(id) {
            Some(i) => Some(&self.instances[i]),
            None => None,
        }
    }

    /// Registers a freshly started instance under `id` and returns its serial, a serial
    /// never issued before. An instance already registered under `id` is replaced in its
    /// place and kept aside (see `detached`) until its process and output end; otherwise
    /// the new one comes last.
    pub fn create(&mut self, id: String) -> (serial: u64)
        requires
            old(self).wf(),
            old(self).issued() < u64::MAX,
        ensures
            final(self).wf(),
            serial == old(self).issued(),
            final(self).issued() == old(self).issued() + 1,
            forall|j: int| 0 <= j < old(self).everything().len() ==> (#[trigger] old(self).everything()[j]).serial != serial,
            match index_of(old(self)@, id@) {
                Some(i) => {
                    &&& final(self)@ == old(self)@.update(i, final(self)@[i])
                    &&& final(self).detached() == old(self).detached().push(old(self)@[i])
                },
                None => {
                    &&& final(self)@ == old(self)@.push(final(self)@.last())
                    &&& final(self).detached() == old(self).detached()
                },
            },
            index_of(final(self)@, id@) matches Some(k) && is_fresh(final(self)@[k], id, serial),
    {
        let serial = self.next_serial;
        self.next_serial = self.next_serial + 1;
        let pos = self.position(id.as_str());
        let ghost key = id@;
        let mut inst = ManagedInstance::start(id, serial);
        let ghost t = old(self).everything();
        let ghost ls: int = old(self)@.len() as int;
        let ghost ld: int = old(self).detached@.len() as int;
        proof {
            lemma_index_of_valid(old(self)@, key);
            assert forall|j: int| 0 <= j < t.len() implies (#[trigger] t[j]).serial != serial by {}
        }
        match pos {
            Some(i) => {
                std::mem::swap(&mut self.instances[i], &mut inst);
                self.detached.push(inst);
                proof {
                    assert(self@ =~= old(self)@.update(i as int, self@[i as int]));
                    assert(self.detached@ =~= old(self).detached@.push(old(self)@[i as int]));
                    let e = self.everything();
                    let n = ls + ld;
                    assert(e.len() == n + 1);
                    assert forall|a: int| 0 <= a < e.len() && a != i implies #[trigger] e[a].serial == t[if a == n { i as int } else { a }].serial by {
                        if a < ls {
                            assert(e[a] == self@[a]);
                            assert(t[a] == old(self)@[a]);
                        } else if a < n {
                            assert(e[a] == self.detached@[a - ls]);
                            assert(t[a] == old(self).detached@[a - ls]);
                        } else {
                            assert(e[a] == self.detached@[ld as int]);
                            assert(t[i as int] == old(self)@[i as int]);
                        }
                    }
                    assert(e[i as int] == self@[i as int]);
                    assert forall|a: int, b: int| 0 <= a < e.len() && 0 <= b < e.len() && a != b
                        implies e[a].serial != e[b].serial by {
                        if a == i {
                            assert(e[b].serial == t[if b == n { i as int } else { b }].serial);
                        } else if b == i {
                            assert(e[a].serial == t[if a == n { i as int } else { a }].serial);
                        } else {
                            assert(e[a].serial == t[if a == n { i as int } else { a }].serial);
                            assert(e[b].serial == t[if b == n { i as int } else { b }].serial);
                        }
                    }
                    assert forall|a: int| 0 <= a < e.len() implies (#[trigger] e[a]).serial < self.next_serial by {
                        if a != i {
                            assert(e[a].serial == t[if a == n { i as int } else { a }].serial);
                        }
                    }
                    assert forall|a: int, b: int| 0 <= a < self@.len() && 0 <= b < self@.len() && a != b
                        implies self@[a].id@ != self@[b].id@ by {
                        if a != i && b != i {
                            assert(self@[a] == old(self)@[a]);
                            assert(self@[b] == old(self)@[b]);
                        } else if a == i {
                            assert(self@[b] == old(self)@[b]);
                        } else {
                            assert(self@[a] == old(self)@[a]);
                        }
                    }
                    assert forall|k: int| 0 <= k < self.detached@.len() implies (#[trigger] self.detached@[k]).wf() by {
                        if k < ld {
                            assert(self.detached@[k] == old(self).detached@[k]);
                        }
                    }
                    lemma_index_of(self@, key, i as int);
                }
            },
            None => {
                self.instances.push(inst);
                proof {
                    let n = ls;
                    let e = self.everything();
                    assert forall|a: int| 0 <= a < e.len() && a != n implies #[trigger] e[a].serial == t[if a < n { a } else { a - 1 }].serial by {
                        if a < n {
                            assert(e[a] == self@[a]);
                            assert(t[a] == old(self)@[a]);
                        } else {
                            assert(e[a] == self.detached@[a - n - 1]);
                            assert(t[a - 1] == old(self).detached@[a - 1 - n]);
                        }
                    }
                    assert(e[n] == self@[n]);
                    assert forall|a: int, b: int| 0 <= a < e.len() && 0 <= b < e.len() && a != b
                        implies e[a].serial != e[b].serial by {
                        if a == n {
                            assert(e[b].serial == t[if b < n { b } else { b - 1 }].serial);
                        } else if b == n {
                            assert(e[a].serial == t[if a < n { a } else { a - 1 }].serial);
                        } else {
                            assert(e[a].serial == t[if a < n { a } else { a - 1 }].serial);
                            assert(e[b].serial == t[if b < n { b } else { b - 1 }].serial);
                        }
                    }
                    assert forall|a: int| 0 <= a < e.len() implies (#[trigger] e[a]).serial < self.next_serial by {
                        if a != n {
                            assert(e[a].serial == t[if a < n { a } else { a - 1 }].serial);
                        }
                    }
                    assert forall|a: int, b: int| 0 <= a < self@.len() && 0 <= b < self@.len() && a != b
                        implies self@[a].id@ != self@[b].id@ by {
                        if a == n {
                            assert(old(self)@[b].id@ != key);
                        } else if b == n {
                            assert(old(self)@[a].id@ != key);
                        } else {
                            assert(self@[a] == old(self)@[a]);
                            assert(self@[b] == old(self)@[b]);
                        }
                    }
                    lemma_index_of(self@, key, n);
                }
            },
        }
        serial
    }

    /// Begins a graceful stop of the instance `id` (see `ManagedInstance::stop`); on
    /// success returns its serial, for `finish_stop`.
    pub fn stop(&mut self, id: &str) -> (r: Result<u64, AgentError>)
        requires
            old(self).wf(),
        ensures
            final(self).wf(),
            final(self).detached() == old(self).detached(),
            match index_of(old(self)@, id@) {
                None => final(self)@ == old(self)@ && (r matches Err(AgentError::NotFound { id: e }) && e@ == id@),
                Some(i) => if old(self)@[i].state != InstanceState::Running {
                    &&& final(self)@ == old(self)@
                    &&& r matches Err(AgentError::NotRunning { id: e, state })
                    &&& e@ == id@
                    &&& state == old(self)@[i].state
                } else {
                    &&& final(self)@ == old(self)@.update(i, old(self)@[i].with_state(InstanceState::Stopping))
                    &&& old(self)@[i].has_child ==> r == Ok::<u64, AgentError>(old(self)@[i].serial)
                    &&& !old(self)@[i].has_child ==> r matches Err(AgentError::NoChild)
                },
            },
    {
        proof {
            lemma_index_of_valid(self@, id@);
        }
        match self.position(id) {
            None => Err(AgentError::NotFound { id: String::from_str(id) }),
            Some(i) => {
                let serial = self.instances[i].serial;
                let inst = &mut self.instances[i];
                let r = inst.stop();
                proof {
                    assert(self@ =~= old(self)@.update(i as int, self@[i as int]));
                    lemma_update_keeps_keys(old(self)@, old(self).detached@, i as int, self@[i as int], self.next_serial);
                }
                match r {
                    Ok(()) => Ok(serial),
                    Err(e) => Err(e),
                }
            },
        }
    }

    /// Ends a graceful stop of the instance `id` registered with `serial` (see
    /// `ManagedInstance::finish_stop`); nothing changes when no such instance is registered.
    pub fn finish_stop(&mut self, id: &str, serial: u64, outcome: StopOutcome, now: u64)
        requires
            old(self).wf(),
        ensures
            final(self).wf(),
            final(self).detached() == old(self).detached(),
            match live_index(old(self)@, id@, serial) {
                None => final(self)@ == old(self)@,
                Some(i) => {
                    &&& final(self)@ == old(self)@.update(i, final(self)@[i])
                    &&& match outcome {
                        StopOutcome::Exited { success } => final(self)@[i] == old(self)@[i].released(
                            if success { InstanceState::Stopped } else { InstanceState::Crashed },
                        ),
                        StopOutcome::TimedOut => {
                            &&& old(self)@[i].same_but_state_console(final(self)@[i])
                            &&& final(self)@[i].state == InstanceState::StoppingTimedOut
                            &&& pushed_note(old(self)@[i].console, final(self)@[i].console, now, ConsoleStream::System, stop_timeout_text(id@))
                        },
                    }
                },
            },
    {
        proof {
            lemma_index_of_valid(self@, id@);
        }
        match self.live_position(id, serial) {
            None => {},
            Some(i) => {
                let inst = &mut self.instances[i];
                inst.finish_stop(outcome, now);
                proof {
                    assert(self@ =~= old(self)@.update(i as int, self@[i as int]));
                    lemma_update_keeps_keys(old(self)@, old(self).detached@, i as int, self@[i as int], self.next_serial);
                }
            },
        }
    }

    /// Begins a forced kill of the instance `id` (see `ManagedInstance::kill`). `Ok(Some(serial))`
    /// asks the caller to kill its process and then call `mark_killed`; `Ok(None)` means the
    /// instance held no process and is stopped already.
    pub fn kill(&mut self, id: &str) -> (r: Result<Option<u64>, AgentError>)
        requires
            old(self).wf(),
        ensures
            final(self).wf(),
            final(self).detached() == old(self).detached(),
            match index_of(old(self)@, id@) {
                None => final(self)@ == old(self)@ && (r matches Err(AgentError::NotFound { id: e }) && e@ == id@),
                Some(i) => if !is_killable(old(self)@[i].state) {
                    &&& final(self)@ == old(self)@
                    &&& r matches Err(AgentError::CannotKill { id: e, state })
                    &&& e@ == id@
                    &&& state == old(self)@[i].state
                } else if old(self)@[i].has_child {
                    &&& final(self)@ == old(self)@
                    &&& r == Ok::<Option<u64>, AgentError>(Some(old(self)@[i].serial))
                } else {
                    &&& final(self)@ == old(self)@.update(i, old(self)@[i].released(InstanceState::Stopped))
                    &&& r == Ok::<Option<u64>, AgentError>(None)
                },
            },
    {
        proof {
            lemma_index_of_valid(self@, id@);
        }
        match self.position(id) {
            None => Err(AgentError::NotFound { id: String::from_str(id) }),
            Some(i) => {
                let serial = self.instances[i].serial;
                let inst = &mut self.instances[i];
                let r = inst.kill();
                proof {
                    assert(self@ =~= old(self)@.update(i as int, self@[i as int]));
                    lemma_update_keeps_keys(old(self)@, old(self).detached@, i as int, self@[i as int], self.next_serial);
                }
                match r {
                    Ok(true) => Ok(Some(serial)),
                    Ok(false) => Ok(None),
                    Err(e) => Err(e),
                }
            },
        }
    }

    /// The process of the instance `id` registered with `serial` was killed: it is stopped
    /// and lets go of its process. Nothing changes when no such instance is registered.
    pub fn mark_killed(&mut self, id: &str, serial: u64)
        requires
            old(self).wf(),
        ensures
            final(self).wf(),
            final(self).detached() == old(self).detached(),
            match live_index(old(self)@, id@, serial) {
                None => final(self)@ == old(self)@,
                Some(i) => final(self)@ == old(self)@.update(i, old(self)@[i].released(InstanceState::Stopped)),
            },
    {
        proof {
            lemma_index_of_valid(self@, id@);
        }
        match self.live_position(id, serial) {
            None => {},
            Some(i) => {
                let inst = &mut self.instances[i];
                inst.mark_killed();
                proof {
                    assert(self@ =~= old(self)@.update(i as int, self@[i as int]));
                    lemma_update_keeps_keys(old(self)@, old(self).detached@, i as int, self@[i as int], self.next_serial);
                }
            },
        }
    }

    /// Removes the instance `id`, which must be stopped or crashed.
    pub fn remove(&mut self, id: &str) -> (r: Result<(), AgentError>)
        requires
            old(self).wf(),
        ensures
            final(self).wf(),
            final(self).detached() == old(self).detached(),
            match index_of(old(self)@, id@) {
                None => final(self)@ == old(self)@ && (r matches Err(AgentError::NotFound { id: e }) && e@ == id@),
                Some(i) => if !is_finished(old(self)@[i].state) {
                    &&& final(self)@ == old(self)@
                    &&& r matches Err(AgentError::StillRunning { id: e, state })
                    &&& e@ == id@
                    &&& state == old(self)@[i].state
                } else {
                    &&& final(self)@ == old(self)@.remove(i)
                    &&& r is Ok
                },
            },
    {
        proof {
            lemma_index_of_valid(self@, id@);
        }
        match self.position(id) {
            None => Err(AgentError::NotFound { id: String::from_str(id) }),
            Some(i) => {
                let state = self.instances[i].state;
                if !finished(state) {
                    return Err(AgentError::StillRunning { id: String::from_str(id), state });
                }
                let _gone = self.instances.remove(i);
                proof {
                    lemma_remove_keeps_keys(old(self)@, old(self).detached@, i as int, self.next_serial);
                    assert forall|k: int| 0 <= k < self@.len() implies (#[trigger] self@[k]).wf() by {
                        assert(self@[k] == old(self)@[if k < i { k } else { k + 1 }]);
                    }
                }
                Ok(())
            },
        }
    }

    /// The id and state of every instance, in order.
    pub fn enumerate(&self) -> (r: Vec<(String, InstanceState)>)
        ensures
            r@.len() == self@.len(),
            forall|i: int| 0 <= i < self@.len() ==> (#[trigger] r@[i]).0@ == self@[i].id@ && r@[i].1 == self@[i].state,
    {
        let mut r: Vec<(String, InstanceState)> = Vec::new();
        let mut i: usize = 0;
        while i < self.instances.len()
            invariant
                i <= self.instances@.len(),
                r@.len() == i,
                forall|j: int| 0 <= j < i ==> (#[trigger] r@[j]).0@ == self@[j].id@ && r@[j].1 == self@[j].state,
            decreases self.instances.len() - i,
        {
            r.push((self.instances[i].id.clone(), self.instances[i].state));
            i += 1;
        }
        r
    }

    /// The state of the instance `id`.
    pub fn state_of(&self, id: &str) -> (r: Option<InstanceState>)
        requires
            self.wf(),
        ensures
            match index_of(self@, id@) {
                Some(i) => r == Some(self@[i].state),
                None => r is None,
            },
    {
        proof {
            lemma_index_of_valid(self@, id@);
        }
        match self.position(id) {
            Some(i) => Some(self.instances[i].state),
            None => None,
        }
    }

    /// The console backlog of the instance `id`, oldest line first.
    pub fn backlog(&self, id: &str) -> (r: Option<Vec<ConsoleLine>>)
        requires
            self.wf(),
        ensures
            match index_of(self@, id@) {
                Some(i) => r matches Some(lines) && lines@ == self@[i].console@,
                None => r is None,
            },
    {
        proof {
            lemma_index_of_valid(self@, id@);
        }
        match self.position(id) {
            Some(i) => Some(self.instances[i].console.backlog()),
            None => None,
        }
    }

    /// A subscription to the console of the instance `id`: it receives the lines the
    /// instance prints from now on, and is tagged with the instance's serial.
    pub fn subscribe(&self, id: &str) -> (r: Option<Subscription>)
        requires
            self.wf(),
        ensures
            match index_of(self@, id@) {
                Some(i) => {
                    &&& r matches Some(sub)
                    &&& sub.owner == self@[i].serial
                    &&& receiver_channel(sub.rx) == sender_channel(self@[i].console.channel())
                    &&& receiver_start(sub.rx) == sent_lines(self@[i].console.channel()).len()
                },
                None => r is None,
            },
    {
        proof {
            lemma_index_of_valid(self@, id@);
        }
        match self.position(id) {
            Some(i) => Some(self.instances[i].console.subscribe()),
            None => None,
        }
    }

    /// The text to write to the input of the instance `id` for the command `line`
    /// (see `ManagedInstance::send_console`).
    pub fn send_console(&self, id: &str, line: &str) -> (r: Result<String, AgentError>)
        requires
            self.wf(),
        ensures
            match index_of(self@, id@) {
                None => r matches Err(AgentError::NotFound { id: e }) && e@ == id@,
                Some(i) => if self@[i].has_stdin {
                    r matches Ok(text) && text@ == line@ + "\n"@
                } else {
                    r matches Err(AgentError::NoStdin { id: e }) && e@ == id@
                },
            },
    {
        proof {
            lemma_index_of_valid(self@, id@);
        }
        match self.position(id) {
            None => Err(AgentError::NotFound { id: String::from_str(id) }),
            Some(i) => self.instances[i].send_console(line),
        }
    }

    /// Where the replaced instance with the serial `serial` stands among the replaced ones.
    fn detached_position(&self, serial: u64) -> (r: Option<usize>)
        requires
            self.wf(),
        ensures
            match r {
                Some(k) => serial_index(self.detached(), serial) == Some(k as int),
                None => serial_index(self.detached(), serial) is None,
            },
    {
        proof {
            lemma_tail_serials_unique(self@, self.detached());
        }
        let mut k: usize = 0;
        while k < self.detached.len()
            invariant
                serials_unique(self.detached@),
                k <= self.detached@.len(),
                forall|j: int| 0 <= j < k ==> self.detached@[j].serial != serial,
            decreases self.detached.len() - k,
        {
            if self.detached[k].serial == serial {
                proof {
                    lemma_serial_index(self.detached@, serial, k as int);
                }
                return Some(k);
            }
            k += 1;
        }
        None
    }

    /// The instance `id` registered with `serial` printed `line` on its standard output at
    /// `now` (see `ManagedInstance::on_stdout_line`). When that instance was replaced, the
    /// line goes to it where it is kept aside; when it is not held at all, nothing changes.
    pub fn on_stdout_line(&mut self, id: &str, serial: u64, line: String, now: u64)
        requires
            old(self).wf(),
        ensures
            final(self).wf(),
            event_step(old(self)@, old(self).detached(), final(self)@, final(self).detached(), id@, serial,
                |a: ManagedInstance, b: ManagedInstance| output_step(a, b, ConsoleLine { timestamp: now, stream: ConsoleStream::Stdout, line })),
    {
        proof {
            lemma_index_of_valid(self@, id@);
        }
        match self.live_position(id, serial) {
            Some(i) => {
                let inst = &mut self.instances[i];
                inst.on_stdout_line(line, now);
                proof {
                    assert(self@ =~= old(self)@.update(i as int, self@[i as int]));
                    lemma_update_keeps_keys(old(self)@, old(self).detached@, i as int, self@[i as int], self.next_serial);
                }
            },
            None => match self.detached_position(serial) {
                Some(k) => {
                    let inst = &mut self.detached[k];
                    inst.on_stdout_line(line, now);
                    proof {
                        assert(self.detached@ =~= old(self).detached@.update(k as int, self.detached@[k as int]));
                        lemma_detached_update(old(self)@, old(self).detached@, k as int, self.detached@[k as int], self.next_serial);
                    }
                },
                None => {},
            },
        }
    }

    /// The instance `id` registered with `serial` printed `line` on its standard error at
    /// `now` (see `ManagedInstance::on_stderr_line`). When that instance was replaced, the
    /// line goes to it where it is kept aside; when it is not held at all, nothing changes.
    pub fn on_stderr_line(&mut self, id: &str, serial: u64, line: String, now: u64)
        requires
            old(self).wf(),
        ensures
            final(self).wf(),
            event_step(old(self)@, old(self).detached(), final(self)@, final(self).detached(), id@, serial,
                |a: ManagedInstance, b: ManagedInstance| output_step(a, b, ConsoleLine { timestamp: now, stream: ConsoleStream::Stderr, line })),
    {
        proof {
            lemma_index_of_valid(self@, id@);
        }
        match self.live_position(id, serial) {
            Some(i) => {
                let inst = &mut self.instances[i];
                inst.on_stderr_line(line, now);
                proof {
                    assert(self@ =~= old(self)@.update(i as int, self@[i as int]));
                    lemma_update_keeps_keys(old(self)@, old(self).detached@, i as int, self@[i as int], self.next_serial);
                }
            },
            None => match self.detached_position(serial) {
                Some(k) => {
                    let inst = &mut self.detached[k];
                    inst.on_stderr_line(line, now);
                    proof {
                        assert(self.detached@ =~= old(self).detached@.update(k as int, self.detached@[k as int]));
                        lemma_detached_update(old(self)@, old(self).detached@, k as int, self.detached@[k as int], self.next_serial);
                    }
                },
                None => {},
            },
        }
    }

    /// The process of the instance `id` registered with `serial` ended (see
    /// `ManagedInstance::on_exit`). When that instance was replaced, the report goes to it
    /// where it is kept aside; when it is not held at all, nothing changes.
    pub fn on_exit(&mut self, id: &str, serial: u64, report: ExitReport, now: u64)
        requires
            old(self).wf(),
        ensures
            final(self).wf(),
            event_step(old(self)@, old(self).detached(), final(self)@, final(self).detached(), id@, serial,
                |a: ManagedInstance, b: ManagedInstance| exit_step(a, b, report, now)),
    {
        proof {
            lemma_index_of_valid(self@, id@);
        }
        match self.live_position(id, serial) {
            Some(i) => {
                let inst = &mut self.instances[i];
                inst.on_exit(report, now);
                proof {
                    assert(self@ =~= old(self)@.update(i as int, self@[i as int]));
                    lemma_update_keeps_keys(old(self)@, old(self).detached@, i as int, self@[i as int], self.next_serial);
                }
            },
            None => match self.detached_position(serial) {
                Some(k) => {
                    let inst = &mut self.detached[k];
                    inst.on_exit(report, now);
                    proof {
                        assert(self.detached@ =~= old(self).detached@.update(k as int, self.detached@[k as int]));
                        lemma_detached_update(old(self)@, old(self).detached@, k as int, self.detached@[k as int], self.next_serial);
                    }
                },
                None => {},
            },
        }
    }

    /// The process of the instance with `serial` and all its output have ended: when that
    /// instance was replaced and is kept aside, it is let go of (its console closes).
    /// Registered instances are not touched.
    pub fn release(&mut self, serial: u64)
        requires
            old(self).wf(),
        ensures
            final(self).wf(),
            final(self)@ == old(self)@,
            match serial_index(old(self).detached(), serial) {
                Some(k) => final(self).detached() == old(self).detached().remove(k),
                None => final(self).detached() == old(self).detached(),
            },
    {
        match self.detached_position(serial) {
            Some(k) => {
                let _gone = self.detached.remove(k);
                proof {
                    lemma_detached_remove(old(self)@, old(self).detached@, k as int, self.next_serial);
                    assert forall|j: int| 0 <= j < self.detached@.len() implies (#[trigger] self.detached@[j]).wf() by {
                        assert(self.detached@[j] == old(self).detached@[if j < k { j } else { j + 1 }]);
                    }
                }
            },
            None => {},
        }
    }

    /// Begins shutting the agent down: every running or starting instance goes to
    /// `Stopping`. Returns their ids, in order, for the caller to send each the stop command.
    pub fn begin_shutdown(&mut self) -> (targets: Vec<String>)
        requires
            old(self).wf(),
        ensures
            final(self).wf(),
            shutdown_step(old(self)@, final(self)@),
            final(self).detached() == old(self).detached(),
            targets.deep_view() == shutdown_targets(old(self)@),
    {
        let ghost orig = self.instances@;
        let mut targets: Vec<String> = Vec::new();
        let mut i: usize = 0;
        while i < self.instances.len()
            invariant
                i <= self.instances@.len(),
                self.next_serial == old(self).next_serial,
                self.detached@ == old(self).detached@,
                self.instances@.len() == orig.len(),
                forall|j: int| 0 <= j < i ==> #[trigger] self.instances@[j] == (
                    if is_stoppable_on_shutdown(orig[j].state) {
                        orig[j].with_state(InstanceState::Stopping)
                    } else {
                        orig[j]
                    }),
                forall|j: int| i <= j < orig.len() ==> #[trigger] self.instances@[j] == orig[j],
                targets.deep_view() == ids_where(orig.take(i as int), |m: ManagedInstance| is_stoppable_on_shutdown(m.state)),
            decreases self.instances.len() - i,
        {
            proof {
                lemma_ids_where_step(orig, |m: ManagedInstance| is_stoppable_on_shutdown(m.state), i as int);
            }
            let s = self.instances[i].state;
            if s == InstanceState::Running || s == InstanceState::Starting {
                let ghost prev = targets.deep_view();
                targets.push(self.instances[i].id.clone());
                assert(targets.deep_view() =~= prev.push(orig[i as int].id@));
                let inst = &mut self.instances[i];
                inst.state = InstanceState::Stopping;
            }
            i += 1;
        }
        assert(orig.take(orig.len() as int) =~= orig);
        proof {
            assert forall|a: int, b: int| 0 <= a < self@.len() && 0 <= b < self@.len() && a != b
                implies self@[a].id@ != self@[b].id@ by {
                assert(self@[a].id == orig[a].id);
                assert(self@[b].id == orig[b].id);
            }
            assert forall|k: int| 0 <= k < self@.len() implies (#[trigger] self@[k]).wf() by {
                assert(self@[k].console == orig[k].console && self@[k].serial == orig[k].serial);
            }
            let t = old(self).everything();
            let e = self.everything();
            assert forall|k: int| 0 <= k < t.len() implies #[trigger] e[k].serial == t[k].serial by {
                if k < orig.len() {
                    assert(e[k] == self@[k]);
                    assert(t[k] == orig[k]);
                } else {
                    assert(e[k] == self.detached@[k - orig.len()]);
                    assert(t[k] == old(self).detached@[k - orig.len()]);
                }
            }
            lemma_same_serials(t, e, self.next_serial);
        }
        targets
    }

    /// Whether the process of every instance has ended.
    pub fn all_finished(&self) -> (r: bool)
        ensures
            r == forall|i: int| 0 <= i < self@.len() ==> is_finished(#[trigger] self@[i].state),
    {
        let mut i: usize = 0;
        while i < self.instances.len()
            invariant
                i <= self.instances@.len(),
                forall|j: int| 0 <= j < i ==> is_finished(#[trigger] self@[j].state),
            decreases self.instances.len() - i,
        {
            if !finished(self.instances[i].state) {
                return false;
            }
            i += 1;
        }
        true
    }

    /// The serial of every instance, in order.
    pub fn serials(&self) -> (serials: Vec<u64>)
        ensures
            serials@.len() == self@.len(),
            forall|i: int| 0 <= i < self@.len() ==> #[trigger] serials@[i] == self@[i].serial,
    {
        let mut serials: Vec<u64> = Vec::new();
        let mut i: usize = 0;
        while i < self.instances.len()
            invariant
                i <= self.instances@.len(),
                serials@.len() == i,
                forall|j: int| 0 <= j < i ==> #[trigger] serials@[j] == self@[j].serial,
            decreases self.instances.len() - i,
        {
            serials.push(self.instances[i].serial);
            i += 1;
        }
        serials
    }

    /// The serials, in order, of the instances held (registered, then replaced) whose
    /// process has not ended and whose serial is among `serials`: at the end of a
    /// shutdown, the instances present when it began that are still to be killed.
    pub fn unfinished_among(&self, serials: &Vec<u64>) -> (r: Vec<u64>)
        ensures
            r@ == unfinished_among_serials(self.everything(), serials@),
            forall|k: int| 0 <= k < self.everything().len() && serials@.contains(self.everything()[k].serial)
                && !is_finished(self.everything()[k].state) ==> #[trigger] r@.contains(self.everything()[k].serial),
            forall|x: u64| #[trigger] r@.contains(x) ==> serials@.contains(x) && exists|k: int|
                0 <= k < self.everything().len() && self.everything()[k].serial == x && !is_finished(self.everything()[k].state),
    {
        let ghost p = |m: ManagedInstance| !is_finished(m.state) && serials@.contains(m.serial);
        let ghost e = self.everything();
        let mut r: Vec<u64> = Vec::new();
        let mut i: usize = 0;
        while i < self.instances.len()
            invariant
                i <= self.instances@.len(),
                e == self@ + self.detached(),
                p == (|m: ManagedInstance| !is_finished(m.state) && serials@.contains(m.serial)),
                r@ == serials_where(e.take(i as int), p),
            decreases self.instances.len() - i,
        {
            proof {
                lemma_serials_where_step(e, p, i as int);
                assert(e[i as int] == self@[i as int]);
            }
            if !finished(self.instances[i].state) && contains_serial(serials, self.instances[i].serial) {
                r.push(self.instances[i].serial);
            }
            i += 1;
        }
        let n = self.instances.len();
        let mut k: usize = 0;
        while k < self.detached.len()
            invariant
                n == self@.len(),
                k <= self.detached@.len(),
                e == self@ + self.detached(),
                p == (|m: ManagedInstance| !is_finished(m.state) && serials@.contains(m.serial)),
                r@ == serials_where(e.take(n + k), p),
            decreases self.detached.len() - k,
        {
            proof {
                lemma_serials_where_step(e, p, n + k);
                assert(e[n + k] == self.detached@[k as int]);
            }
            if !finished(self.detached[k].state) && contains_serial(serials, self.detached[k].serial) {
                r.push(self.detached[k].serial);
            }
            k += 1;
        }
        assert(e.take(e.len() as int) =~= e);
        proof {
            lemma_unfinished_among(e, serials@);
            assert forall|k: int| 0 <= k < e.len() && serials@.contains(e[k].serial) && !is_finished(e[k].state)
                implies #[trigger] r@.contains(e[k].serial) by {
                assert(unfinished_among_serials(e, serials@).contains(e[k].serial));
            }
            assert forall|x: u64| #[trigger] r@.contains(x) implies serials@.contains(x) && exists|k: int|
                0 <= k < e.len() && e[k].serial == x && !is_finished(e[k].state) by {
                assert(unfinished_among_serials(e, serials@).contains(x));
            }
        }
        r
    }

    /// Where the registered instance with the serial `serial` stands.
    fn live_serial_position(&self, serial: u64) -> (r: Option<usize>)
        requires
            self.wf(),
        ensures
            match r {
                Some(i) => serial_index(self@, serial) == Some(i as int),
                None => serial_index(self@, serial) is None,
            },
    {
        proof {
            lemma_head_serials_unique(self@, self.detached());
        }
        let mut i: usize = 0;
        while i < self.instances.len()
            invariant
                serials_unique(self@),
                i <= self@.len(),
                forall|j: int| 0 <= j < i ==> self@[j].serial != serial,
            decreases self.instances.len() - i,
        {
            if self.instances[i].serial == serial {
                proof {
                    lemma_serial_index(self@, serial, i as int);
                }
                return Some(i);
            }
            i += 1;
        }
        None
    }

    /// Decides a forced kill of the instance with `serial`, registered or replaced (see
    /// `kill_effect`); `true` asks the caller to kill its process and then call
    /// `mark_killed_held`. Nothing changes, and `false` is returned, when no instance with
    /// that serial is held.
    pub fn kill_held(&mut self, serial: u64) -> (r: bool)
        requires
            old(self).wf(),
        ensures
            final(self).wf(),
            held_step(old(self)@, old(self).detached(), final(self)@, final(self).detached(), serial,
                |a: ManagedInstance, b: ManagedInstance| kill_effect(a, b, r)),
            serial_index(old(self)@, serial) is None && serial_index(old(self).detached(), serial) is None ==> !r,
    {
        match self.live_serial_position(serial) {
            Some(i) => {
                let inst = &mut self.instances[i];
                let r = match inst.kill() {
                    Ok(kill) => kill,
                    Err(_) => false,
                };
                proof {
                    assert(self@ =~= old(self)@.update(i as int, self@[i as int]));
                    lemma_update_keeps_keys(old(self)@, old(self).detached@, i as int, self@[i as int], self.next_serial);
                }
                r
            },
            None => match self.detached_position(serial) {
                Some(k) => {
                    let inst = &mut self.detached[k];
                    let r = match inst.kill() {
                        Ok(kill) => kill,
                        Err(_) => false,
                    };
                    proof {
                        assert(self.detached@ =~= old(self).detached@.update(k as int, self.detached@[k as int]));
                        lemma_detached_update(old(self)@, old(self).detached@, k as int, self.detached@[k as int], self.next_serial);
                    }
                    r
                },
                None => false,
            },
        }
    }

    /// The process of the instance with `serial`, registered or replaced, was killed: it is
    /// stopped and lets go of its process. Nothing changes when no such instance is held.
    pub fn mark_killed_held(&mut self, serial: u64)
        requires
            old(self).wf(),
        ensures
            final(self).wf(),
            held_step(old(self)@, old(self).detached(), final(self)@, final(self).detached(), serial,
                |a: ManagedInstance, b: ManagedInstance| b == a.released(InstanceState::Stopped)),
    {
        match self.live_serial_position(serial) {
            Some(i) => {
                let inst = &mut self.instances[i];
                inst.mark_killed();
                proof {
                    assert(self@ =~= old(self)@.update(i as int, self@[i as int]));
                    lemma_update_keeps_keys(old(self)@, old(self).detached@, i as int, self@[i as int], self.next_serial);
                }
            },
            None => match self.detached_position(serial) {
                Some(k) => {
                    let inst = &mut self.detached[k];
                    inst.mark_killed();
                    proof {
                        assert(self.detached@ =~= old(self).detached@.update(k as int, self.detached@[k as int]));
                        lemma_detached_update(old(self)@, old(self).detached@, k as int, self.detached@[k as int], self.next_serial);
                    }
                },
                None => {},
            },
        }
    }
}

} // verus!

verus! {

/// Every state change that the instance operations make follows the life cycle: output
/// moves only a starting instance to running; a stop begins only from
/// running; a timed-out stop moves a stopping instance on; a kill and an exit end the
/// process; shutting down stops only running or starting instances.
pub proof fn lemma_lifecycle(s: InstanceState, success: bool)
    ensures
        lifecycle_allows(s, ManagedInstance::state_after_output(s)),
        ManagedInstance::state_after_output(s) == InstanceState::Running
            ==> s == InstanceState::Running || s == InstanceState::Starting,
        s == InstanceState::Running ==> lifecycle_allows(s, InstanceState::Stopping),
        s == InstanceState::Stopping ==> lifecycle_allows(s, InstanceState::StoppingTimedOut),
        is_killable(s) ==> lifecycle_allows(s, InstanceState::Stopped),
        lifecycle_allows(s, if success { InstanceState::Stopped } else { InstanceState::Crashed }),
        lifecycle_allows(s, InstanceState::Crashed),
        lifecycle_allows(s, shutdown_state(s)),
{
}

/// Once removed, an id is no longer found.
pub proof fn lemma_removed_not_found(s: Seq<ManagedInstance>, id: Seq<char>)
    requires
        ids_unique(s),
        index_of(s, id) is Some,
    ensures
        index_of(s.remove(index_of(s, id)->0), id) is None,
        ids_unique(s.remove(index_of(s, id)->0)),
{
    let i = index_of(s, id)->0;
    let r = s.remove(i);
    if has_id(r, id) {
        let k = choose|k: int| 0 <= k < r.len() && #[trigger] r[k].id@ == id;
        let ok = if k < i { k } else { k + 1 };
        assert(r[k] == s[ok]);
    }
    assert forall|a: int, b: int| 0 <= a < r.len() && 0 <= b < r.len() && a != b
        implies r[a].id@ != r[b].id@ by {
        let oa = if a < i { a } else { a + 1 };
        let ob = if b < i { b } else { b + 1 };
        assert(r[a] == s[oa]);
        assert(r[b] == s[ob]);
    }
}

/// After shutting down began, no instance is running or starting, and the same
/// instances stand where they stood.
pub proof fn lemma_shutdown_stops_all(old: Seq<ManagedInstance>, new: Seq<ManagedInstance>)
    requires
        shutdown_step(old, new),
    ensures
        forall|i: int| 0 <= i < new.len() ==> !is_stoppable_on_shutdown(#[trigger] new[i].state),
        forall|i: int| 0 <= i < new.len() ==> #[trigger] new[i].id == old[i].id && new[i].serial == old[i].serial,
{
    assert forall|i: int| 0 <= i < new.len() implies !is_stoppable_on_shutdown(#[trigger] new[i].state) by {
        assert(new[i] == (if is_stoppable_on_shutdown(old[i].state) { old[i].with_state(InstanceState::Stopping) } else { old[i] }));
    }
    assert forall|i: int| 0 <= i < new.len() implies #[trigger] new[i].id == old[i].id && new[i].serial == old[i].serial by {
        assert(new[i] == (if is_stoppable_on_shutdown(old[i].state) { old[i].with_state(InstanceState::Stopping) } else { old[i] }));
    }
}

/// Registering an id that is not registered and later removing it gives back the
/// instances there were: the new instance comes last, whatever changes it went through
/// in its place, and removing it leaves the rest as they stood.
pub proof fn lemma_create_then_remove(s: Seq<ManagedInstance>, inst: ManagedInstance)
    requires
        ids_unique(s),
        index_of(s, inst.id@) is None,
    ensures
        ids_unique(s.push(inst)),
        index_of(s.push(inst), inst.id@) == Some(s.len() as int),
        s.push(inst).remove(s.len() as int) == s,
{
    let t = s.push(inst);
    assert forall|a: int, b: int| 0 <= a < t.len() && 0 <= b < t.len() && a != b
        implies t[a].id@ != t[b].id@ by {
        if a == s.len() {
            assert(s[b].id@ != inst.id@) by {
                if s[b].id@ == inst.id@ {
                    assert(has_id(s, inst.id@));
                }
            }
        } else if b == s.len() {
            assert(s[a].id@ != inst.id@) by {
                if s[a].id@ == inst.id@ {
                    assert(has_id(s, inst.id@));
                }
            }
        }
    }
    lemma_index_of(t, inst.id@, s.len() as int);
    assert(t.remove(s.len() as int) =~= s);
}

/// How a shutdown ends for an instance that had not finished when the wait ran out:
/// since shutting down began it is neither running nor starting, so it may be killed, and
/// the kill (of its process where it holds one) leaves it stopped.
pub proof fn lemma_shutdown_kill_stops(a: ManagedInstance, b: ManagedInstance, r: bool, c: ManagedInstance)
    requires
        !is_finished(a.state),
        !is_stoppable_on_shutdown(a.state),
        kill_effect(a, b, r),
        r ==> c == b.released(InstanceState::Stopped),
        !r ==> c == b,
    ensures
        is_killable(a.state),
        c.state == InstanceState::Stopped,
        !c.has_child,
{
}

/// An exit decides the state from the status alone: an instance that holds its process,
/// whatever its state, is left `Stopped` by a successful exit and `Crashed` by any other,
/// and no longer holds the process or its input.
pub proof fn lemma_exit_state(a: ManagedInstance, b: ManagedInstance, success: bool, code: Option<i32>, now: u64)
    requires
        a.has_child,
        exit_step(a, b, ExitReport::Exited { success, code }, now),
    ensures
        success ==> b.state == InstanceState::Stopped,
        !success ==> b.state == InstanceState::Crashed,
        !b.has_child,
        !b.has_stdin,
{
}

/// Output changes only a starting instance, which becomes running; every other state is
/// kept, so output never ends an instance; a line on standard error changes no state.
pub proof fn lemma_output_state(a: ManagedInstance, b: ManagedInstance, line: ConsoleLine)
    requires
        output_step(a, b, line),
    ensures
        line.stream == ConsoleStream::Stdout && a.state == InstanceState::Starting ==> b.state == InstanceState::Running,
        line.stream == ConsoleStream::Stdout && a.state != InstanceState::Starting ==> b.state == a.state,
        line.stream != ConsoleStream::Stdout ==> b.state == a.state,
        !is_finished(a.state) ==> !is_finished(b.state),
        b.id == a.id && b.serial == a.serial && b.has_child == a.has_child && b.has_stdin == a.has_stdin,
{
}

proof fn lemma_serials_where_members(s: Seq<ManagedInstance>, p: spec_fn(ManagedInstance) -> bool)
    ensures
        forall|k: int| 0 <= k < s.len() && p(s[k]) ==> #[trigger] serials_where(s, p).contains(s[k].serial),
        forall|x: u64| #[trigger] serials_where(s, p).contains(x)
            ==> exists|k: int| 0 <= k < s.len() && p(s[k]) && s[k].serial == x,
    decreases s.len(),
{
    if s.len() > 0 {
        let init = s.drop_last();
        lemma_serials_where_members(init, p);
        let r = serials_where(s, p);
        let rest = serials_where(init, p);
        assert forall|k: int| 0 <= k < s.len() && p(s[k]) implies #[trigger] r.contains(s[k].serial) by {
            if k < s.len() - 1 {
                assert(init[k] == s[k]);
                assert(rest.contains(init[k].serial));
                let j = choose|j: int| 0 <= j < rest.len() && rest[j] == init[k].serial;
                if p(s.last()) {
                    assert(r[j] == rest[j]);
                }
            } else {
                assert(r[r.len() - 1] == s.last().serial);
            }
        }
        assert forall|x: u64| #[trigger] r.contains(x) implies exists|k: int| 0 <= k < s.len() && p(s[k]) && s[k].serial == x by {
            let j = choose|j: int| 0 <= j < r.len() && r[j] == x;
            if p(s.last()) && j == r.len() - 1 {
                assert(p(s[s.len() - 1]) && s[s.len() - 1].serial == x);
            } else {
                assert(rest[j] == x);
                assert(rest.contains(x));
                let k = choose|k: int| 0 <= k < init.len() && p(init[k]) && init[k].serial == x;
                assert(s[k] == init[k]);
            }
        }
    }
}

/// At the end of a shutdown, every instance held whose serial is in the snapshot and whose
/// process has not ended, in whatever state, is to be killed; and only such instances are.
pub proof fn lemma_unfinished_among(e: Seq<ManagedInstance>, serials: Seq<u64>)
    ensures
        forall|k: int| 0 <= k < e.len() && serials.contains(e[k].serial) && !is_finished(e[k].state)
            ==> #[trigger] unfinished_among_serials(e, serials).contains(e[k].serial),
        forall|x: u64| #[trigger] unfinished_among_serials(e, serials).contains(x)
            ==> serials.contains(x) && exists|k: int| 0 <= k < e.len() && e[k].serial == x && !is_finished(e[k].state),
{
    let p = |m: ManagedInstance| !is_finished(m.state) && serials.contains(m.serial);
    lemma_serials_where_members(e, p);
    assert forall|k: int| 0 <= k < e.len() && serials.contains(e[k].serial) && !is_finished(e[k].state)
        implies #[trigger] unfinished_among_serials(e, serials).contains(e[k].serial) by {
        assert(p(e[k]));
    }
    assert forall|x: u64| #[trigger] unfinished_among_serials(e, serials).contains(x)
        implies serials.contains(x) && exists|k: int| 0 <= k < e.len() && e[k].serial == x && !is_finished(e[k].state) by {
        let k = choose|k: int| 0 <= k < e.len() && p(e[k]) && e[k].serial == x;
        assert(e[k].serial == x && !is_finished(e[k].state));
    }
}

} // verus!
