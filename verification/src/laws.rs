//! What holds of the builder and of the exchange with the host as a whole,
//! stated over the views that the contracts of the operations use.

use vstd::prelude::*;
use crate::boundary::{transmission, CallView, InvocationView, ReplyView, StageView, StepView};
use crate::command::{CommandView, OutputView};
use crate::environment::{has_key, unique_keys, Entry};
use crate::error::Error;
use crate::environment::{lemma_lookup_last, lemma_map_keys, lemma_put_entry_map};
use crate::environment::{lemma_put_entry_encodable, lemma_put_entry_unique};
use crate::text::{all_encodable, is_encodable, text_bytes};

verus! {

/// The command after each text of a sequence was added as an argument by a
/// call of its own, first to last.
pub open spec fn with_each_argument(command: CommandView, arguments: Seq<Seq<char>>) -> CommandView
    decreases arguments.len(),
{
    if arguments.len() == 0 {
        command
    } else {
        with_each_argument(command, arguments.drop_last()).with_argument(arguments.last())
    }
}

/// Arguments keep the order in which they were added: after any sequence of
/// additions, one by one, the arguments are those held before followed by the
/// added ones in the order of the calls. Adding them in bulk gives the same
/// command.
pub proof fn law_arguments_keep_order(command: CommandView, arguments: Seq<Seq<char>>)
    ensures
        with_each_argument(command, arguments).arguments == command.arguments + arguments,
        with_each_argument(command, arguments) == command.with_arguments(arguments),
    decreases arguments.len(),
{
    if arguments.len() == 0 {
        assert(command.arguments + arguments =~= command.arguments);
    } else {
        law_arguments_keep_order(command, arguments.drop_last());
        assert((command.arguments + arguments.drop_last()).push(arguments.last())
            =~= command.arguments + arguments);
    }
}

/// On a new command the arguments are exactly the added ones, in the order of
/// the calls.
pub proof fn law_arguments_of_new_command(name: Seq<char>, arguments: Seq<Seq<char>>)
    ensures
        with_each_argument(CommandView::initial(name), arguments).arguments == arguments,
{
    law_arguments_keep_order(CommandView::initial(name), arguments);
    assert(Seq::<Seq<char>>::empty() + arguments =~= arguments);
}

/// Clearing leaves no argument, whatever was held before, touches nothing
/// else, and changes nothing where no argument was held.
pub proof fn law_clear_arguments(command: CommandView)
    ensures
        command.without_arguments().arguments.len() == 0,
        command.without_arguments() == (CommandView {
            arguments: command.without_arguments().arguments,
            ..command
        }),
        command.arguments.len() == 0 ==> command.without_arguments() == command,
{
    if command.arguments.len() == 0 {
        assert(command.arguments =~= Seq::empty());
    }
}

/// The environment reflects the most recent write: after a write the name
/// has the written value and every other name what it had; a second write to
/// the same name leaves only the later value.
pub proof fn law_last_write_wins(
    command: CommandView,
    key: Seq<char>,
    earlier: Seq<char>,
    later: Seq<char>,
)
    ensures
        command.with_variable(key, later).variables() == command.variables().insert(key, later),
        command.with_variable(key, later).variables()[key] == later,
        forall|other: Seq<char>|
            other != key ==> (command.with_variable(key, later).variables().contains_key(other)
                <==> command.variables().contains_key(other)),
        forall|other: Seq<char>|
            other != key && command.variables().contains_key(other) ==> command.with_variable(
                key,
                later,
            ).variables()[other] == command.variables()[other],
        command.with_variable(key, earlier).with_variable(key, later).variables()
            == command.with_variable(key, later).variables(),
{
    lemma_put_entry_map(command.environment, key, later);
    lemma_put_entry_map(command.environment, key, earlier);
    lemma_put_entry_map(command.with_variable(key, earlier).environment, key, later);
    assert(command.variables().insert(key, earlier).insert(key, later)
        =~= command.variables().insert(key, later));
}

/// The mapping after the writes of a sequence, first to last, on top of a
/// mapping.
pub open spec fn written(
    start: Map<Seq<char>, Seq<char>>,
    entries: Seq<Entry>,
) -> Map<Seq<char>, Seq<char>>
    decreases entries.len(),
{
    if entries.len() == 0 {
        start
    } else {
        written(start, entries.drop_last()).insert(entries.last().0, entries.last().1)
    }
}

/// A bulk write is its writes one after the other: of two entries with one
/// name the later one stays.
pub proof fn law_bulk_write(command: CommandView, entries: Seq<Entry>)
    ensures
        command.with_variables(entries).variables() == written(command.variables(), entries),
    decreases entries.len(),
{
    if entries.len() > 0 {
        let front = command.with_variables(entries.drop_last());
        law_bulk_write(command, entries.drop_last());
        lemma_put_entry_map(front.environment, entries.last().0, entries.last().1);
    }
}

/// The three ways to append to the input append to one sequence: two appends
/// in a row are one append of the two pieces joined, in the order of the
/// calls, and nothing else of the command changes.
pub proof fn law_stdin_appends_in_order(command: CommandView, first: Seq<u8>, second: Seq<u8>)
    ensures
        command.with_stdin(first).with_stdin(second) == command.with_stdin(first + second),
        command.with_stdin(first).stdin == command.stdin + first,
        CommandView::initial(command.name).with_stdin(first).with_stdin(second).stdin == first
            + second,
{
    assert((command.stdin + first) + second =~= command.stdin + (first + second));
    assert((Seq::<u8>::empty() + first) + second =~= first + second);
}

/// Only the last timeout set counts, and it is the one that is transmitted.
pub proof fn law_last_timeout_wins(command: CommandView, earlier: u32, later: u32)
    ensures
        command.with_timeout(earlier).with_timeout(later) == command.with_timeout(later),
        command.with_timeout(later).timeout == later,
        transmission(command.with_timeout(earlier).with_timeout(later)).contains(
            CallView::SetTimeout(later),
        ),
        forall|other: u32|
            transmission(command.with_timeout(later)).contains(CallView::SetTimeout(other))
                ==> other == later,
{
    let set = command.with_timeout(later);
    let calls = transmission(set);
    let at: int = 1int + set.arguments.len() + set.environment.len();
    assert(calls[at] == CallView::SetTimeout(later));
    assert forall|other: u32| calls.contains(CallView::SetTimeout(other)) implies other
        == later by {
        let i = choose|i: int| 0 <= i < calls.len() && calls[i] == CallView::SetTimeout(other);
        assert(calls[i] == CallView::SetTimeout(other));
        if i != at {
            assert(!(calls[i] is SetTimeout));
        }
    }
}

/// Every operation of the builder keeps a well-formed command well-formed,
/// given texts that can cross the boundary.
pub proof fn law_builder_keeps_well_formed(
    command: CommandView,
    text: Seq<char>,
    value: Seq<char>,
    texts: Seq<Seq<char>>,
    bytes: Seq<u8>,
    milliseconds: u32,
)
    requires
        command.wf(),
        is_encodable(text),
        is_encodable(value),
        all_encodable(texts),
    ensures
        CommandView::initial(text).wf(),
        command.with_argument(text).wf(),
        command.with_arguments(texts).wf(),
        command.without_arguments().wf(),
        command.with_variable(text, value).wf(),
        command.with_stdin(bytes).wf(),
        command.with_timeout(milliseconds).wf(),
{
    lemma_put_entry_unique(command.environment, text, value);
    lemma_put_entry_encodable(command.environment, text, value);
}

/// The shape of a transmission: one call for the name, one for each
/// argument, one for each entry of the environment, then the timeout, the
/// input and the run.
pub proof fn law_transmission_shape(command: CommandView)
    ensures
        transmission(command).len() == command.arguments.len() + command.environment.len() + 4,
        transmission(command).first() is SetProgramName,
        transmission(command).last() == CallView::Run,
        forall|i: int|
            0 <= i < command.arguments.len() ==> (#[trigger] transmission(command)[1 + i])
                == CallView::AddArgument(text_bytes(command.arguments[i])),
        forall|i: int|
            0 <= i < command.environment.len() ==> (#[trigger] transmission(command)[1
                + command.arguments.len() + i]) == CallView::AddEnvironmentEntry(
                text_bytes(command.environment[i].0),
                text_bytes(command.environment[i].1),
            ),
{
}

/// The whole environment is transmitted: where no name is held twice, every
/// variable of the mapping is held by exactly one entry, which carries its
/// current value, and every entry holds a variable of the mapping. Each
/// entry has one call of the transmission, so each variable has one.
pub proof fn law_environment_is_transmitted(command: CommandView)
    requires
        unique_keys(command.environment),
    ensures
        forall|i: int|
            0 <= i < command.environment.len() ==> {
                let entry = #[trigger] command.environment[i];
                &&& command.variables().contains_key(entry.0)
                &&& command.variables()[entry.0] == entry.1
                &&& transmission(command)[1 + command.arguments.len() + i]
                    == CallView::AddEnvironmentEntry(text_bytes(entry.0), text_bytes(entry.1))
            },
        forall|key: Seq<char>| #[trigger]
            command.variables().contains_key(key) ==> has_key(command.environment, key),
        forall|i: int, j: int|
            0 <= i < command.environment.len() && 0 <= j < command.environment.len() && (
            #[trigger] command.environment[i]).0 == (#[trigger] command.environment[j]).0 ==> i
                == j,
{
    let entries = command.environment;
    assert forall|i: int| 0 <= i < entries.len() implies {
        let entry = #[trigger] entries[i];
        &&& command.variables().contains_key(entry.0)
        &&& command.variables()[entry.0] == entry.1
    } by {
        lemma_lookup_last(entries, entries[i].0, i);
    }
    assert forall|key: Seq<char>| #[trigger]
        command.variables().contains_key(key) implies has_key(entries, key) by {
        lemma_map_keys(entries, key);
    }
    assert forall|i: int, j: int|
        0 <= i < entries.len() && 0 <= j < entries.len() && (#[trigger] entries[i]).0 == (
        #[trigger] entries[j]).0 implies i == j by {
        if i < j {
            assert(entries[i].0 != entries[j].0);
        }
        if j < i {
            assert(entries[j].0 != entries[i].0);
        }
    }
}

/// The steps that a run makes on a sequence of replies, first to last.
pub open spec fn steps(state: InvocationView, replies: Seq<ReplyView>) -> Seq<StepView>
    decreases replies.len(),
{
    if replies.len() == 0 {
        Seq::empty()
    } else {
        seq![state.advance(replies[0]).1] + steps(state.advance(replies[0]).0, replies.drop_first())
    }
}

/// `count` replies that say that a call returned nothing.
pub open spec fn acknowledgements(count: nat) -> Seq<ReplyView> {
    Seq::new(count, |i: int| ReplyView::Done)
}

/// What a host that runs the process answers after the first call: nothing
/// to each call of the transmission but the run, the exit code to the run,
/// and each output after its length.
pub open spec fn host_replies(command: CommandView, output: OutputView) -> Seq<ReplyView> {
    acknowledgements((transmission(command).len() - 1) as nat) + seq![
        ReplyView::ExitCode(output.status),
        ReplyView::Length(output.stdout.len() as u32),
        ReplyView::Bytes(output.stdout),
        ReplyView::Length(output.stderr.len() as u32),
        ReplyView::Bytes(output.stderr),
    ]
}

/// The calls that a sequence of steps asks for, as steps.
pub open spec fn performing(calls: Seq<CallView>) -> Seq<StepView> {
    Seq::new(calls.len(), |i: int| StepView::Perform(calls[i]))
}

/// While calls of the transmission are pending, each acknowledgement hands
/// out the next of them, in order.
pub proof fn lemma_transmitting(state: InvocationView, rest: Seq<ReplyView>)
    requires
        state.stage == StageView::Transmitting,
    ensures
        steps(state, acknowledgements(state.pending.len()) + rest) == performing(state.pending)
            + steps(InvocationView { pending: Seq::empty(), ..state }, rest),
    decreases state.pending.len(),
{
    let replies = acknowledgements(state.pending.len()) + rest;
    if state.pending.len() == 0 {
        assert(replies =~= rest);
        assert(state.pending =~= Seq::empty());
        assert(performing(state.pending) + steps(state, rest) =~= steps(state, rest));
    } else {
        let next = InvocationView { pending: state.pending.drop_first(), ..state };
        assert(replies[0] == ReplyView::Done);
        assert(state.advance(replies[0]) == (next, StepView::Perform(state.pending[0])));
        assert(replies.drop_first() =~= acknowledgements(next.pending.len()) + rest);
        lemma_transmitting(next, rest);
        assert(seq![StepView::Perform(state.pending[0])] + performing(next.pending)
            =~= performing(state.pending));
        assert(seq![StepView::Perform(state.pending[0])] + (performing(next.pending) + steps(
            InvocationView { pending: Seq::empty(), ..state },
            rest,
        )) =~= performing(state.pending) + steps(
            InvocationView { pending: Seq::empty(), ..state },
            rest,
        ));
    }
}

/// A run against a host that runs the process goes through the whole
/// exchange in its fixed order and ends with the host's output: after the
/// program name come the other calls of the transmission, then the query for
/// the length of the standard output, the request for the output with a
/// buffer of exactly that length, the same two for the standard error, and
/// last the output record, with the exit code as the host gave it.
pub proof fn law_run_follows_protocol(command: CommandView, output: OutputView)
    requires
        output.stdout.len() <= u32::MAX,
        output.stderr.len() <= u32::MAX,
    ensures
        steps(InvocationView::started(command), host_replies(command, output)) == performing(
            transmission(command).drop_first(),
        ) + seq![
            StepView::Perform(CallView::GetStdoutLength),
            StepView::Perform(CallView::GetStdout(output.stdout.len() as u32)),
            StepView::Perform(CallView::GetStderrLength),
            StepView::Perform(CallView::GetStderr(output.stderr.len() as u32)),
            StepView::Finished(output),
        ],
{
    let start = InvocationView::started(command);
    let tail = seq![
        ReplyView::ExitCode(output.status),
        ReplyView::Length(output.stdout.len() as u32),
        ReplyView::Bytes(output.stdout),
        ReplyView::Length(output.stderr.len() as u32),
        ReplyView::Bytes(output.stderr),
    ];
    lemma_transmitting(start, tail);
    let s0 = InvocationView { pending: Seq::empty(), ..start };
    let s1 = s0.advance(tail[0]).0;
    let t1 = tail.drop_first();
    let s2 = s1.advance(t1[0]).0;
    let t2 = t1.drop_first();
    let s3 = s2.advance(t2[0]).0;
    let t3 = t2.drop_first();
    let s4 = s3.advance(t3[0]).0;
    let t4 = t3.drop_first();
    let s5 = s4.advance(t4[0]).0;
    let t5 = t4.drop_first();
    assert(steps(s5, t5) =~= Seq::empty());
    assert(steps(s4, t4) =~= seq![StepView::Finished(output)]);
    assert(steps(s3, t3) =~= seq![
        StepView::Perform(CallView::GetStderr(output.stderr.len() as u32)),
        StepView::Finished(output),
    ]);
    assert(steps(s2, t2) =~= seq![
        StepView::Perform(CallView::GetStderrLength),
        StepView::Perform(CallView::GetStderr(output.stderr.len() as u32)),
        StepView::Finished(output),
    ]);
    assert(steps(s1, t1) =~= seq![
        StepView::Perform(CallView::GetStdout(output.stdout.len() as u32)),
        StepView::Perform(CallView::GetStderrLength),
        StepView::Perform(CallView::GetStderr(output.stderr.len() as u32)),
        StepView::Finished(output),
    ]);
    assert(steps(s0, tail) =~= seq![
        StepView::Perform(CallView::GetStdoutLength),
        StepView::Perform(CallView::GetStdout(output.stdout.len() as u32)),
        StepView::Perform(CallView::GetStderrLength),
        StepView::Perform(CallView::GetStderr(output.stderr.len() as u32)),
        StepView::Finished(output),
    ]);
    assert(start.pending.len() == transmission(command).len() - 1);
}

/// A run that is over makes no further call: whatever reply comes, it stays
/// over and reports a failure.
pub proof fn law_finished_stays_finished(state: InvocationView, reply: ReplyView)
    requires
        state.stage == StageView::Finished,
    ensures
        state.advance(reply).0 == state,
        state.advance(reply).1 == StepView::Failed(Error::UnexpectedReply),
{
}

} // verus!
