use vstd::prelude::*;
use vstd::slice::slice_to_vec;
use crate::command::{Command, CommandView, Output, OutputView};
use crate::environment::{is_encodable_entry, Entry};
use crate::error::Error;
use crate::text::{all_encodable, encode, is_encodable, text_bytes};

verus! {

/// One call across the boundary. A call that carries bytes carries all of
/// them: their number is the length that goes with them, and the host must
/// not look for a terminator.
#[derive(Debug, PartialEq, Eq)]
pub enum Call {
    /// Names the program to run.
    SetProgramName(Vec<u8>),
    /// Adds one argument after those added before.
    AddArgument(Vec<u8>),
    /// Adds one variable of the environment: its name, then its value.
    AddEnvironmentEntry(Vec<u8>, Vec<u8>),
    /// Sets the timeout, in milliseconds.
    SetTimeout(u32),
    /// Hands over the whole input of the process; no byte means no input.
    SetStdin(Vec<u8>),
    /// Runs the process and waits for its end.
    Run,
    /// Asks how many bytes the process wrote to its standard output.
    GetStdoutLength,
    /// Asks for the standard output, copied into a buffer of the given size.
    GetStdout(u32),
    /// Asks how many bytes the process wrote to its standard error.
    GetStderrLength,
    /// Asks for the standard error, copied into a buffer of the given size.
    GetStderr(u32),
}

/// The mathematical content of a [`Call`].
pub enum CallView {
    SetProgramName(Seq<u8>),
    AddArgument(Seq<u8>),
    AddEnvironmentEntry(Seq<u8>, Seq<u8>),
    SetTimeout(u32),
    SetStdin(Seq<u8>),
    Run,
    GetStdoutLength,
    GetStdout(u32),
    GetStderrLength,
    GetStderr(u32),
}

impl View for Call {
    type V = CallView;

    open spec fn view(&self) -> CallView {
        match *self {
            Call::SetProgramName(name) => CallView::SetProgramName(name@),
            Call::AddArgument(argument) => CallView::AddArgument(argument@),
            Call::AddEnvironmentEntry(key, value) => CallView::AddEnvironmentEntry(key@, value@),
            Call::SetTimeout(milliseconds) => CallView::SetTimeout(milliseconds),
            Call::SetStdin(bytes) => CallView::SetStdin(bytes@),
            Call::Run => CallView::Run,
            Call::GetStdoutLength => CallView::GetStdoutLength,
            Call::GetStdout(length) => CallView::GetStdout(length),
            Call::GetStderrLength => CallView::GetStderrLength,
            Call::GetStderr(length) => CallView::GetStderr(length),
        }
    }
}

/// What the host gave back for one call.
#[derive(Debug, PartialEq, Eq)]
pub enum Reply {
    /// The call returned nothing.
    Done,
    /// The exit code that the run returned.
    ExitCode(i32),
    /// The length that a query returned.
    Length(u32),
    /// The buffer after the host copied an output into it.
    Bytes(Vec<u8>),
}

/// The mathematical content of a [`Reply`].
pub enum ReplyView {
    Done,
    ExitCode(i32),
    Length(u32),
    Bytes(Seq<u8>),
}

impl View for Reply {
    type V = ReplyView;

    open spec fn view(&self) -> ReplyView {
        match *self {
            Reply::Done => ReplyView::Done,
            Reply::ExitCode(status) => ReplyView::ExitCode(status),
            Reply::Length(length) => ReplyView::Length(length),
            Reply::Bytes(bytes) => ReplyView::Bytes(bytes@),
        }
    }
}

/// What an invocation asks of its driver next.
#[derive(Debug)]
pub enum Step {
    /// Perform this call and come back with the host's reply.
    Perform(Call),
    /// The run is over and this is its output; no call is left to make.
    Finished(Output),
    /// The exchange broke off; no call is left to make.
    Failed(Error),
}

/// The mathematical content of a [`Step`].
pub enum StepView {
    Perform(CallView),
    Finished(OutputView),
    Failed(Error),
}

impl View for Step {
    type V = StepView;

    open spec fn view(&self) -> StepView {
        match *self {
            Step::Perform(call) => StepView::Perform(call@),
            Step::Finished(output) => StepView::Finished(output@),
            Step::Failed(error) => StepView::Failed(error),
        }
    }
}

/// The views of a sequence of calls.
pub open spec fn calls_view(calls: Seq<Call>) -> Seq<CallView> {
    Seq::new(calls.len(), |i: int| calls[i]@)
}

/// One call for each argument, in their order.
pub open spec fn argument_calls(arguments: Seq<Seq<char>>) -> Seq<CallView> {
    Seq::new(arguments.len(), |i: int| CallView::AddArgument(text_bytes(arguments[i])))
}

/// One call for each entry of the environment, in their order.
pub open spec fn environment_calls(entries: Seq<Entry>) -> Seq<CallView> {
    Seq::new(
        entries.len(),
        |i: int| CallView::AddEnvironmentEntry(text_bytes(entries[i].0), text_bytes(entries[i].1)),
    )
}

/// The calls that hand a command to the host and run it: the program name,
/// the arguments, the environment, the timeout, the input, the run.
pub open spec fn transmission(command: CommandView) -> Seq<CallView> {
    seq![CallView::SetProgramName(text_bytes(command.name))] + argument_calls(command.arguments)
        + environment_calls(command.environment) + seq![
        CallView::SetTimeout(command.timeout),
        CallView::SetStdin(command.stdin),
        CallView::Run,
    ]
}

impl Call {
    /// A call with the same content.
    pub fn duplicate(&self) -> (copy: Call)
        ensures
            copy@ == self@,
    {
        match self {
            Call::SetProgramName(name) => Call::SetProgramName(slice_to_vec(name.as_slice())),
            Call::AddArgument(argument) => Call::AddArgument(slice_to_vec(argument.as_slice())),
            Call::AddEnvironmentEntry(key, value) => Call::AddEnvironmentEntry(
                slice_to_vec(key.as_slice()),
                slice_to_vec(value.as_slice()),
            ),
            Call::SetTimeout(milliseconds) => Call::SetTimeout(*milliseconds),
            Call::SetStdin(bytes) => Call::SetStdin(slice_to_vec(bytes.as_slice())),
            Call::Run => Call::Run,
            Call::GetStdoutLength => Call::GetStdoutLength,
            Call::GetStdout(length) => Call::GetStdout(*length),
            Call::GetStderrLength => Call::GetStderrLength,
            Call::GetStderr(length) => Call::GetStderr(*length),
        }
    }
}

/// Writes a command down as the calls that hand it to the host and run it.
/// A command with a zero byte in one of its texts is refused as a whole: no
/// call is made for it.
pub fn marshal(command: &Command) -> (res: Result<Vec<Call>, Error>)
    ensures
        res is Ok <==> command@.is_transmissible(),
        res matches Ok(calls) ==> calls_view(calls@) == transmission(command@),
        res matches Err(e) ==> e == Error::NulByte,
{
    let ghost view = command@;
    let mut calls: Vec<Call> = Vec::new();
    match encode(command.name.as_str()) {
        Ok(name) => calls.push(Call::SetProgramName(name)),
        Err(e) => {
            return Err(e);
        },
    }
    let ghost head = seq![CallView::SetProgramName(text_bytes(view.name))];
    assert(calls_view(calls@) =~= head);
    let mut i: usize = 0;
    while i < command.args_list.len()
        invariant
            0 <= i <= command.args_list.len(),
            view == command@,
            head == seq![CallView::SetProgramName(text_bytes(view.name))],
            is_encodable(view.name),
            forall|j: int| 0 <= j < i ==> is_encodable(#[trigger] view.arguments[j]),
            calls_view(calls@) == head + argument_calls(view.arguments).take(i as int),
        decreases command.args_list.len() - i,
    {
        let ghost sent = calls_view(calls@);
        proof {
            assert(view.arguments[i as int] == command.args_list@[i as int]@);
        }
        match encode(command.args_list[i].as_str()) {
            Ok(argument) => calls.push(Call::AddArgument(argument)),
            Err(e) => {
                return Err(e);
            },
        }
        proof {
            let all = argument_calls(view.arguments);
            assert(all.take(i + 1) =~= all.take(i as int).push(all[i as int]));
            assert(calls@[calls@.len() - 1]@ == all[i as int]);
            assert(calls_view(calls@) =~= sent.push(all[i as int]));
            assert(calls_view(calls@) =~= head + all.take(i + 1));
        }
        i += 1;
    }
    proof {
        let all = argument_calls(view.arguments);
        assert(all.take(i as int) =~= all);
    }
    let ghost front = head + argument_calls(view.arguments);
    let mut k: usize = 0;
    while k < command.envp_map.len()
        invariant
            0 <= k <= command.envp_map.len(),
            view == command@,
            is_encodable(view.name),
            all_encodable(view.arguments),
            forall|j: int|
                0 <= j < k ==> is_encodable_entry(#[trigger] view.environment[j]),
            calls_view(calls@) == front + environment_calls(view.environment).take(k as int),
        decreases command.envp_map.len() - k,
    {
        let ghost sent = calls_view(calls@);
        proof {
            assert(view.environment[k as int] == (
                command.envp_map@[k as int].0@,
                command.envp_map@[k as int].1@,
            ));
        }
        let key = match encode(command.envp_map[k].0.as_str()) {
            Ok(key) => key,
            Err(e) => {
                return Err(e);
            },
        };
        let value = match encode(command.envp_map[k].1.as_str()) {
            Ok(value) => value,
            Err(e) => {
                return Err(e);
            },
        };
        calls.push(Call::AddEnvironmentEntry(key, value));
        proof {
            let all = environment_calls(view.environment);
            assert(all.take(k + 1) =~= all.take(k as int).push(all[k as int]));
            assert(calls@[calls@.len() - 1]@ == all[k as int]);
            assert(calls_view(calls@) =~= sent.push(all[k as int]));
            assert(calls_view(calls@) =~= front + all.take(k + 1));
        }
        k += 1;
    }
    proof {
        let all = environment_calls(view.environment);
        assert(all.take(k as int) =~= all);
    }
    calls.push(Call::SetTimeout(command.timeout_val));
    calls.push(Call::SetStdin(slice_to_vec(command.stdin_str.as_slice())));
    calls.push(Call::Run);
    assert(calls_view(calls@) =~= transmission(view));
    Ok(calls)
}

/// Where an invocation stands: which reply it waits for, with what it has
/// learnt so far.
#[derive(Debug)]
pub enum Stage {
    /// It waits for the reply to a call of the transmission.
    Transmitting,
    /// It waits for the length of the standard output.
    StdoutLength { status: i32 },
    /// It waits for the standard output, of the announced length.
    Stdout { status: i32, length: u32 },
    /// It waits for the length of the standard error.
    StderrLength { status: i32, stdout: Vec<u8> },
    /// It waits for the standard error, of the announced length.
    Stderr { status: i32, stdout: Vec<u8>, length: u32 },
    /// It is over, with an output or with a failure.
    Finished,
}

/// The mathematical content of a [`Stage`].
pub enum StageView {
    Transmitting,
    StdoutLength { status: i32 },
    Stdout { status: i32, length: u32 },
    StderrLength { status: i32, stdout: Seq<u8> },
    Stderr { status: i32, stdout: Seq<u8>, length: u32 },
    Finished,
}

impl View for Stage {
    type V = StageView;

    open spec fn view(&self) -> StageView {
        match *self {
            Stage::Transmitting => StageView::Transmitting,
            Stage::StdoutLength { status } => StageView::StdoutLength { status },
            Stage::Stdout { status, length } => StageView::Stdout { status, length },
            Stage::StderrLength { status, stdout } => StageView::StderrLength {
                status,
                stdout: stdout@,
            },
            Stage::Stderr { status, stdout, length } => StageView::Stderr {
                status,
                stdout: stdout@,
                length,
            },
            Stage::Finished => StageView::Finished,
        }
    }
}

/// One run of a command against the host, as a machine that its driver steps
/// through: the driver performs the call that a step hands out and comes back
/// with the host's reply. The machine keeps the calls of the command as they
/// were when the run began, so that a later change of the command does not
/// reach a run under way.
#[derive(Debug)]
pub struct Invocation {
    plan: Vec<Call>,
    issued: usize,
    stage: Stage,
}

/// The mathematical content of an [`Invocation`].
pub struct InvocationView {
    /// The calls of the transmission that are still to be handed out.
    pub pending: Seq<CallView>,
    pub stage: StageView,
}

impl InvocationView {
    /// The state of a run of `command` once its first call is handed out.
    pub open spec fn started(command: CommandView) -> InvocationView {
        InvocationView {
            pending: transmission(command).drop_first(),
            stage: StageView::Transmitting,
        }
    }

    /// The state in which a run ends.
    pub open spec fn stopped(self) -> InvocationView {
        InvocationView { stage: StageView::Finished, ..self }
    }

    pub open spec fn at(self, stage: StageView) -> InvocationView {
        InvocationView { stage, ..self }
    }

    /// The state after a reply and what the driver is to do next.
    ///
    /// A call of the transmission but the last is answered by `Done` and
    /// followed by the next one; the last, the run, is answered by the exit
    /// code. Then come the length of the standard output, the output itself in
    /// a buffer of exactly that length, and the same two for the standard
    /// error. Any other reply ends the run with `Error::UnexpectedReply`, and
    /// so does any reply to a run that is over.
    pub open spec fn advance(self, reply: ReplyView) -> (InvocationView, StepView) {
        let refused = (self.stopped(), StepView::Failed(Error::UnexpectedReply));
        match (self.stage, reply) {
            (StageView::Transmitting, ReplyView::Done) if self.pending.len() > 0 => (
                InvocationView { pending: self.pending.drop_first(), ..self },
                StepView::Perform(self.pending[0]),
            ),
            (StageView::Transmitting, ReplyView::ExitCode(status)) if self.pending.len() == 0 => (
                self.at(StageView::StdoutLength { status }),
                StepView::Perform(CallView::GetStdoutLength),
            ),
            (StageView::StdoutLength { status }, ReplyView::Length(length)) => (
                self.at(StageView::Stdout { status, length }),
                StepView::Perform(CallView::GetStdout(length)),
            ),
            (StageView::Stdout { status, length }, ReplyView::Bytes(stdout)) if stdout.len()
                == length => (
                self.at(StageView::StderrLength { status, stdout }),
                StepView::Perform(CallView::GetStderrLength),
            ),
            (StageView::StderrLength { status, stdout }, ReplyView::Length(length)) => (
                self.at(StageView::Stderr { status, stdout, length }),
                StepView::Perform(CallView::GetStderr(length)),
            ),
            (StageView::Stderr { status, stdout, length }, ReplyView::Bytes(stderr)) if stderr.len()
                == length => (
                self.stopped(),
                StepView::Finished(OutputView { status, stdout, stderr }),
            ),
            _ => refused,
        }
    }
}

impl View for Invocation {
    type V = InvocationView;

    closed spec fn view(&self) -> InvocationView {
        InvocationView {
            pending: if self.issued <= self.plan@.len() {
                calls_view(self.plan@).skip(self.issued as int)
            } else {
                Seq::empty()
            },
            stage: self.stage@,
        }
    }
}

impl Invocation {
    /// Begins a run of the command: makes sure that it can cross the boundary
    /// and hands out its first call, the program name. A command with a zero byte
    /// in one of its texts is refused before any call is made.
    pub fn begin(command: &Command) -> (res: Result<(Invocation, Call), Error>)
        ensures
            res is Ok <==> command@.is_transmissible(),
            res matches Ok(run) ==> run.0@ == InvocationView::started(command@) && run.1@
                == transmission(command@)[0],
            res matches Err(e) ==> e == Error::NulByte,
    {
        let plan = match marshal(command) {
            Ok(plan) => plan,
            Err(e) => {
                return Err(e);
            },
        };
        let first = plan[0].duplicate();
        let run = Invocation { plan, issued: 1, stage: Stage::Transmitting };
        assert(run@.pending =~= transmission(command@).drop_first());
        Ok((run, first))
    }

    /// Takes the host's reply to the call handed out last and says what comes
    /// next: another call, the output of the run, or a failure.
    pub fn step(self, reply: Reply) -> (next: (Invocation, Step))
        ensures
            next.0@ == self@.advance(reply@).0,
            next.1@ == self@.advance(reply@).1,
    {
        let Invocation { plan, issued, stage } = self;
        match (stage, reply) {
            (Stage::Transmitting, Reply::Done) if issued < plan.len() => {
                let call = plan[issued].duplicate();
                let next = Invocation { plan, issued: issued + 1, stage: Stage::Transmitting };
                assert(next@.pending =~= self@.pending.drop_first());
                (next, Step::Perform(call))
            },
            (Stage::Transmitting, Reply::ExitCode(status)) if issued >= plan.len() => {
                let next = Invocation { plan, issued, stage: Stage::StdoutLength { status } };
                (next, Step::Perform(Call::GetStdoutLength))
            },
            (Stage::StdoutLength { status }, Reply::Length(length)) => {
                let next = Invocation { plan, issued, stage: Stage::Stdout { status, length } };
                (next, Step::Perform(Call::GetStdout(length)))
            },
            (Stage::Stdout { status, length }, Reply::Bytes(stdout)) if has_length(
                &stdout,
                length,
            ) => {
                let next = Invocation {
                    plan,
                    issued,
                    stage: Stage::StderrLength { status, stdout },
                };
                (next, Step::Perform(Call::GetStderrLength))
            },
            (Stage::StderrLength { status, stdout }, Reply::Length(length)) => {
                let next = Invocation {
                    plan,
                    issued,
                    stage: Stage::Stderr { status, stdout, length },
                };
                (next, Step::Perform(Call::GetStderr(length)))
            },
            (Stage::Stderr { status, stdout, length }, Reply::Bytes(stderr)) if has_length(
                &stderr,
                length,
            ) => {
                let next = Invocation { plan, issued, stage: Stage::Finished };
                (next, Step::Finished(Output { status, stdout, stderr }))
            },
            _ => {
                let next = Invocation { plan, issued, stage: Stage::Finished };
                (next, Step::Failed(Error::UnexpectedReply))
            },
        }
    }
}

/// Tells whether the buffer has exactly the announced length.
fn has_length(buffer: &Vec<u8>, length: u32) -> (exact: bool)
    ensures
        exact == (buffer@.len() == length),
{
    buffer.len() == length as usize
}

} // verus!
