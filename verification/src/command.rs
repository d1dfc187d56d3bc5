use vstd::prelude::*;
use crate::error::Error;
use crate::text::{
    all_encodable, encodable_prefix_len, has_nul, is_encodable, same_text, text_bytes,
};
use crate::text::lemma_encodable_prefix_len;
use crate::environment::{
    all_encodable_entries, encodable_entries_prefix_len, entries_map, has_key,
    is_encodable_entry, overwrite, put_entry, unique_keys, Entry,
};
use crate::environment::{
    lemma_encodable_entries_prefix_len, lemma_lookup_absent, lemma_lookup_last,
    lemma_put_entry_encodable, lemma_put_entry_map, lemma_put_entry_unique,
};

verus! {

/// The timeout of a command whose timeout was never set, in milliseconds.
pub const DEFAULT_TIMEOUT_MS: u32 = 10000;

/// What a finished process left behind.
#[derive(Debug)]
pub struct Output {
    /// The exit code of the process, as the host reported it.
    pub status: i32,
    /// The bytes that the process wrote to its standard output.
    pub stdout: Vec<u8>,
    /// The bytes that the process wrote to its standard error.
    pub stderr: Vec<u8>,
}

/// The mathematical content of an [`Output`].
pub struct OutputView {
    pub status: i32,
    pub stdout: Seq<u8>,
    pub stderr: Seq<u8>,
}

impl View for Output {
    type V = OutputView;

    open spec fn view(&self) -> OutputView {
        OutputView { status: self.status, stdout: self.stdout@, stderr: self.stderr@ }
    }
}

/// The description of a process to run.
#[derive(Debug)]
pub struct Command {
    /// The program name.
    pub name: String,
    /// The arguments, in the order in which they were added.
    pub args_list: Vec<String>,
    /// The environment: pairs of a variable's name and its value, in the order
    /// in which the names were first set.
    pub envp_map: Vec<(String, String)>,
    /// The timeout in milliseconds.
    pub timeout_val: u32,
    /// The bytes to feed to the standard input of the process.
    pub stdin_str: Vec<u8>,
}

/// The mathematical content of a [`Command`].
pub struct CommandView {
    pub name: Seq<char>,
    pub arguments: Seq<Seq<char>>,
    pub environment: Seq<Entry>,
    pub timeout: u32,
    pub stdin: Seq<u8>,
}

impl CommandView {
    /// The command that `Command::new` makes for a program name.
    pub open spec fn initial(name: Seq<char>) -> CommandView {
        CommandView {
            name,
            arguments: Seq::empty(),
            environment: Seq::empty(),
            timeout: DEFAULT_TIMEOUT_MS,
            stdin: Seq::empty(),
        }
    }

    /// The command with one more argument, after those it has.
    pub open spec fn with_argument(self, argument: Seq<char>) -> CommandView {
        CommandView { arguments: self.arguments.push(argument), ..self }
    }

    /// The command with more arguments, in their order, after those it has.
    pub open spec fn with_arguments(self, arguments: Seq<Seq<char>>) -> CommandView {
        CommandView { arguments: self.arguments + arguments, ..self }
    }

    /// The command with no argument.
    pub open spec fn without_arguments(self) -> CommandView {
        CommandView { arguments: Seq::empty(), ..self }
    }

    /// The command after `value` was written to the variable `key`.
    pub open spec fn with_variable(self, key: Seq<char>, value: Seq<char>) -> CommandView {
        CommandView { environment: put_entry(self.environment, key, value), ..self }
    }

    /// The writes of `entries` applied one after the other, first to last.
    pub open spec fn with_variables(self, entries: Seq<Entry>) -> CommandView
        decreases entries.len(),
    {
        if entries.len() == 0 {
            self
        } else {
            self.with_variables(entries.drop_last()).with_variable(
                entries.last().0,
                entries.last().1,
            )
        }
    }

    /// The command with more bytes of input, after those it has.
    pub open spec fn with_stdin(self, bytes: Seq<u8>) -> CommandView {
        CommandView { stdin: self.stdin + bytes, ..self }
    }

    /// The command with another timeout.
    pub open spec fn with_timeout(self, milliseconds: u32) -> CommandView {
        CommandView { timeout: milliseconds, ..self }
    }

    /// The environment as a mapping from names to values.
    pub open spec fn variables(self) -> Map<Seq<char>, Seq<char>> {
        entries_map(self.environment)
    }

    /// Every text of the command can cross the boundary.
    pub open spec fn is_transmissible(self) -> bool {
        &&& is_encodable(self.name)
        &&& all_encodable(self.arguments)
        &&& all_encodable_entries(self.environment)
    }

    /// What the builder keeps true of a command: its texts can cross the
    /// boundary and no name of the environment is held twice.
    pub open spec fn wf(self) -> bool {
        &&& self.is_transmissible()
        &&& unique_keys(self.environment)
    }
}

/// The texts of a slice of string slices.
pub open spec fn texts_of(items: Seq<&str>) -> Seq<Seq<char>> {
    Seq::new(items.len(), |i: int| items[i]@)
}

/// The entries of a slice of pairs of string slices.
pub open spec fn entries_of(items: Seq<(&str, &str)>) -> Seq<Entry> {
    Seq::new(items.len(), |i: int| (items[i].0@, items[i].1@))
}

impl View for Command {
    type V = CommandView;

    open spec fn view(&self) -> CommandView {
        CommandView {
            name: self.name@,
            arguments: Seq::new(self.args_list@.len(), |i: int| self.args_list@[i]@),
            environment: Seq::new(
                self.envp_map@.len(),
                |i: int| (self.envp_map@[i].0@, self.envp_map@[i].1@),
            ),
            timeout: self.timeout_val,
            stdin: self.stdin_str@,
        }
    }
}

impl Command {
    /// Makes the description of a run of the program `prog`, with no
    /// argument, an empty environment, no input and the default timeout.
    /// A name with a zero byte is refused.
    pub fn new(prog: &str) -> (res: Result<Command, Error>)
        ensures
            res is Ok <==> is_encodable(prog@),
            res matches Ok(command) ==> command@ == CommandView::initial(prog@) && command@.wf(),
            res matches Err(e) ==> e == Error::NulByte,
    {
        if has_nul(prog.as_bytes()) {
            return Err(Error::NulByte);
        }
        let command = Command {
            name: prog.to_owned(),
            args_list: Vec::new(),
            envp_map: Vec::new(),
            timeout_val: DEFAULT_TIMEOUT_MS,
            stdin_str: Vec::new(),
        };
        assert(command@.arguments =~= Seq::empty());
        assert(command@.environment =~= Seq::empty());
        Ok(command)
    }

    /// Makes the description of a run of the program `prog` in the
    /// environment `vars`, written as by [`Command::envs`]: a copy of the pairs
    /// as they are now, which later changes of their source do not reach. A
    /// zero byte in the name or in one of the pairs is refused.
    pub fn with_environment(prog: &str, vars: &[(&str, &str)]) -> (res: Result<Command, Error>)
        ensures
            res is Ok <==> is_encodable(prog@) && all_encodable_entries(entries_of(vars@)),
            res matches Ok(command) ==> command@ == CommandView::initial(prog@).with_variables(
                entries_of(vars@),
            ) && command@.wf(),
            res matches Err(e) ==> e == Error::NulByte,
    {
        let mut command = match Command::new(prog) {
            Ok(command) => command,
            Err(e) => {
                return Err(e);
            },
        };
        match command.envs(vars) {
            Ok(_) => {},
            Err(e) => {
                return Err(e);
            },
        }
        Ok(command)
    }

    /// Appends one argument. An argument with a zero byte is refused and
    /// leaves the command as it was.
    pub fn arg(&mut self, arg: &str) -> (res: Result<&mut Command, Error>)
        ensures
            res is Ok <==> is_encodable(arg@),
            match res {
                Ok(ret) => {
                    &&& ret@ == old(self)@.with_argument(arg@)
                    &&& old(self)@.wf() ==> ret@.wf()
                    &&& *final(self) == *final(ret)
                },
                Err(e) => e == Error::NulByte && *final(self) == *old(self),
            },
    {
        if has_nul(arg.as_bytes()) {
            return Err(Error::NulByte);
        }
        self.args_list.push(arg.to_owned());
        assert(self@.arguments =~= old(self)@.arguments.push(arg@));
        Ok(self)
    }

    /// Appends the arguments one after the other. The first one with a zero
    /// byte ends the call with an error; those before it stay appended.
    pub fn args(&mut self, args: &[&str]) -> (res: Result<&mut Command, Error>)
        ensures
            res is Ok <==> all_encodable(texts_of(args@)),
            match res {
                Ok(ret) => {
                    &&& ret@ == old(self)@.with_arguments(texts_of(args@))
                    &&& old(self)@.wf() ==> ret@.wf()
                    &&& *final(self) == *final(ret)
                },
                Err(e) => {
                    &&& e == Error::NulByte
                    &&& final(self)@ == old(self)@.with_arguments(
                        texts_of(args@).take(encodable_prefix_len(texts_of(args@)) as int),
                    )
                    &&& old(self)@.wf() ==> final(self)@.wf()
                },
            },
    {
        let ghost texts = texts_of(args@);
        let mut i: usize = 0;
        while i < args.len()
            invariant
                0 <= i <= args.len(),
                texts == texts_of(args@),
                forall|j: int| 0 <= j < i ==> is_encodable(#[trigger] texts[j]),
                self@ == old(self)@.with_arguments(texts.take(i as int)),
                old(self)@.wf() ==> self@.wf(),
            decreases args.len() - i,
        {
            proof {
                assert(texts[i as int] == args@[i as int]@);
                assert(texts.take(i + 1) =~= texts.take(i as int).push(texts[i as int]));
            }
            match self.arg(args[i]) {
                Ok(_) => {},
                Err(e) => {
                    proof {
                        lemma_encodable_prefix_len(texts, i as int);
                    }
                    return Err(e);
                },
            }
            proof {
                assert(self@.arguments =~= old(self)@.arguments + texts.take(i + 1));
            }
            i += 1;
        }
        proof {
            assert(texts.take(i as int) =~= texts);
        }
        Ok(self)
    }

    /// Removes every argument.
    pub fn args_clear(&mut self) -> (ret: &mut Command)
        ensures
            ret@ == old(self)@.without_arguments(),
            old(self)@.wf() ==> ret@.wf(),
            *final(self) == *final(ret),
    {
        self.args_list.clear();
        assert(self@.arguments =~= Seq::empty());
        self
    }

    /// Writes `val` to the variable `key` of the environment, in place of the
    /// value written before, if any. A name or a value with a zero byte is
    /// refused and leaves the command as it was.
    pub fn env(&mut self, key: &str, val: &str) -> (res: Result<&mut Command, Error>)
        ensures
            res is Ok <==> is_encodable(key@) && is_encodable(val@),
            match res {
                Ok(ret) => {
                    &&& ret@ == old(self)@.with_variable(key@, val@)
                    &&& ret@.variables() == old(self)@.variables().insert(key@, val@)
                    &&& old(self)@.wf() ==> ret@.wf()
                    &&& *final(self) == *final(ret)
                },
                Err(e) => e == Error::NulByte && *final(self) == *old(self),
            },
    {
        if has_nul(key.as_bytes()) || has_nul(val.as_bytes()) {
            return Err(Error::NulByte);
        }
        self.put(key, val);
        Ok(self)
    }

    /// Writes the pairs to the environment one after the other, so that of
    /// two pairs with one name the later one stays. The first pair with a zero
    /// byte ends the call with an error; those before it stay written.
    pub fn envs(&mut self, vars: &[(&str, &str)]) -> (res: Result<&mut Command, Error>)
        ensures
            res is Ok <==> all_encodable_entries(entries_of(vars@)),
            match res {
                Ok(ret) => {
                    &&& ret@ == old(self)@.with_variables(entries_of(vars@))
                    &&& old(self)@.wf() ==> ret@.wf()
                    &&& *final(self) == *final(ret)
                },
                Err(e) => {
                    &&& e == Error::NulByte
                    &&& final(self)@ == old(self)@.with_variables(
                        entries_of(vars@).take(
                            encodable_entries_prefix_len(entries_of(vars@)) as int,
                        ),
                    )
                    &&& old(self)@.wf() ==> final(self)@.wf()
                },
            },
    {
        let ghost entries = entries_of(vars@);
        let mut i: usize = 0;
        while i < vars.len()
            invariant
                0 <= i <= vars.len(),
                entries == entries_of(vars@),
                forall|j: int| 0 <= j < i ==> is_encodable_entry(#[trigger] entries[j]),
                self@ == old(self)@.with_variables(entries.take(i as int)),
                old(self)@.wf() ==> self@.wf(),
            decreases vars.len() - i,
        {
            let (key, val) = vars[i];
            proof {
                assert(entries[i as int] == (key@, val@));
            }
            match self.env(key, val) {
                Ok(_) => {},
                Err(e) => {
                    proof {
                        lemma_encodable_entries_prefix_len(entries, i as int);
                    }
                    return Err(e);
                },
            }
            proof {
                assert(entries.take(i + 1).drop_last() =~= entries.take(i as int));
                assert(entries.take(i + 1).last() == entries[i as int]);
            }
            i += 1;
        }
        proof {
            assert(entries.take(i as int) =~= entries);
        }
        Ok(self)
    }

    /// The value of the variable `key` of the environment: the one written to
    /// it last.
    pub fn env_value(&self, key: &str) -> (value: Option<&String>)
        ensures
            value is Some <==> self@.variables().contains_key(key@),
            value matches Some(text) ==> text@ == self@.variables()[key@],
    {
        let mut i: usize = self.envp_map.len();
        while i > 0
            invariant
                0 <= i <= self.envp_map.len(),
                forall|j: int|
                    i <= j < self.envp_map.len() ==> (#[trigger] self@.environment[j]).0 != key@,
            decreases i,
        {
            i -= 1;
            if same_text(self.envp_map[i].0.as_str(), key) {
                proof {
                    lemma_lookup_last(self@.environment, key@, i as int);
                }
                return Some(&self.envp_map[i].1);
            }
        }
        proof {
            lemma_lookup_absent(self@.environment, key@);
        }
        None
    }

    fn put(&mut self, key: &str, val: &str)
        requires
            is_encodable(key@),
            is_encodable(val@),
        ensures
            final(self)@ == old(self)@.with_variable(key@, val@),
            final(self)@.variables() == old(self)@.variables().insert(key@, val@),
            old(self)@.wf() ==> final(self)@.wf(),
    {
        let ghost before = self@.environment;
        let mut found = false;
        let mut i: usize = 0;
        while i < self.envp_map.len()
            invariant
                0 <= i <= self.envp_map.len(),
                before == old(self)@.environment,
                self@.environment.len() == before.len(),
                self@ == (CommandView { environment: self@.environment, ..old(self)@ }),
                forall|j: int|
                    0 <= j < i ==> #[trigger] self@.environment[j] == overwrite(
                        before,
                        key@,
                        val@,
                    )[j],
                forall|j: int|
                    i <= j < before.len() ==> #[trigger] self@.environment[j] == before[j],
                found <==> exists|j: int| 0 <= j < i && (#[trigger] before[j]).0 == key@,
            decreases self.envp_map.len() - i,
        {
            let ghost current = self@;
            proof {
                assert(current.environment[i as int] == before[i as int]);
            }
            if same_text(self.envp_map[i].0.as_str(), key) {
                self.envp_map[i].1 = val.to_owned();
                found = true;
                proof {
                    assert(self@.environment[i as int] == (key@, val@));
                }
            }
            proof {
                let target = overwrite(before, key@, val@);
                assert forall|j: int| 0 <= j < i + 1 implies #[trigger] self@.environment[j]
                    == target[j] by {
                    if j < i {
                        assert(current.environment[j] == target[j]);
                    }
                }
                assert forall|j: int| i + 1 <= j < before.len() implies #[trigger] self@
                    .environment[j] == before[j] by {
                    assert(current.environment[j] == before[j]);
                }
            }
            i += 1;
        }
        let ghost current = self@;
        if !found {
            self.envp_map.push((key.to_owned(), val.to_owned()));
            proof {
                assert(!has_key(before, key@));
                assert forall|j: int| 0 <= j < before.len() implies #[trigger] self@.environment[j]
                    == before[j] by {
                    assert(current.environment[j] == overwrite(before, key@, val@)[j]);
                }
                assert(self@.environment =~= before.push((key@, val@)));
            }
        } else {
            proof {
                assert(has_key(before, key@));
                assert(self@.environment =~= overwrite(before, key@, val@));
            }
        }
        proof {
            lemma_put_entry_map(before, key@, val@);
            if old(self)@.wf() {
                lemma_put_entry_unique(before, key@, val@);
                lemma_put_entry_encodable(before, key@, val@);
            }
        }
    }

    /// Appends the bytes of a text to the input of the process, with no
    /// terminator. A text with a zero byte is refused and leaves the command
    /// as it was.
    pub fn stdin(&mut self, buf: &str) -> (res: Result<&mut Command, Error>)
        ensures
            res is Ok <==> is_encodable(buf@),
            match res {
                Ok(ret) => {
                    &&& ret@ == old(self)@.with_stdin(text_bytes(buf@))
                    &&& old(self)@.wf() ==> ret@.wf()
                    &&& *final(self) == *final(ret)
                },
                Err(e) => e == Error::NulByte && *final(self) == *old(self),
            },
    {
        let bytes = buf.as_bytes();
        if has_nul(bytes) {
            return Err(Error::NulByte);
        }
        self.append_input(bytes);
        Ok(self)
    }

    /// Appends one byte to the input of the process. Any byte is taken, zero
    /// too.
    pub fn stdin_u8(&mut self, buf: u8) -> (ret: &mut Command)
        ensures
            ret@ == old(self)@.with_stdin(seq![buf]),
            old(self)@.wf() ==> ret@.wf(),
            *final(self) == *final(ret),
    {
        self.stdin_str.push(buf);
        assert(self@.stdin =~= old(self)@.stdin + seq![buf]);
        self
    }

    /// Appends bytes to the input of the process, in their order.
    pub fn stdin_u8vec(&mut self, buf: &[u8]) -> (ret: &mut Command)
        ensures
            ret@ == old(self)@.with_stdin(buf@),
            old(self)@.wf() ==> ret@.wf(),
            *final(self) == *final(ret),
    {
        self.append_input(buf);
        self
    }

    /// Sets the timeout, in milliseconds, in place of the one set before.
    pub fn timeout(&mut self, time: u32) -> (ret: &mut Command)
        ensures
            ret@ == old(self)@.with_timeout(time),
            old(self)@.wf() ==> ret@.wf(),
            *final(self) == *final(ret),
    {
        self.timeout_val = time;
        self
    }

    fn append_input(&mut self, bytes: &[u8])
        ensures
            final(self)@ == old(self)@.with_stdin(bytes@),
    {
        let mut i: usize = 0;
        while i < bytes.len()
            invariant
                0 <= i <= bytes.len(),
                self@ == old(self)@.with_stdin(bytes@.take(i as int)),
            decreases bytes.len() - i,
        {
            self.stdin_str.push(bytes[i]);
            proof {
                assert(bytes@.take(i + 1) =~= bytes@.take(i as int).push(bytes@[i as int]));
                assert(self@.stdin =~= old(self)@.stdin + bytes@.take(i + 1));
            }
            i += 1;
        }
        proof {
            assert(bytes@.take(i as int) =~= bytes@);
        }
    }
}

} // verus!
