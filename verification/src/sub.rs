//! Commands and the host they run on.
//!
//! Everything the verbs do to the machine goes through a [`Runner`]: one
//! method, [`Runner::perform`], hands a [`Request`] to the host and brings
//! back its [`Answer`]. Its contract is stated over a [`World`]: the calls
//! made so far, in order, and the reply that each call meets. A verb's own
//! contract then says which calls it makes, and what it returns, as a function
//! of those replies.
//!
//! **Trace policy:** a mutating command ([`run`], [`cmd`], [`zfs`]) is echoed
//! to the operator as `+ prog arg1 arg2 ...` before it runs, so that it can be
//! repeated by hand. Read-only commands ([`capture`] and the `*_capture`
//! functions) are not.

use vstd::prelude::*;

use crate::error;
use crate::error::Error;
use crate::text;

verus! {

// ---------------------------------------------------------------------------
// The world
// ---------------------------------------------------------------------------

/// One thing asked of the host.
pub enum Call {
    /// Run a program to its end, with its output captured.
    Run { prog: Seq<char>, args: Seq<Seq<char>> },
    /// Run a program to its end on the operator's terminal.
    Attend { prog: Seq<char>, args: Seq<Seq<char>> },
    /// Run a program on the operator's terminal, with variables added to its
    /// environment.
    RunWith { prog: Seq<char>, args: Seq<Seq<char>>, env: Seq<(Seq<char>, Seq<char>)> },
    /// Run two programs, the output of the first being the input of the second.
    Pipe { prog: Seq<char>, args: Seq<Seq<char>>, to_prog: Seq<char>, to_args: Seq<Seq<char>> },
    /// Run a program with `input` on its standard input.
    Feed { prog: Seq<char>, args: Seq<Seq<char>>, input: Seq<char> },
    /// Show a line to the operator.
    Say { text: Seq<char> },
    /// Show text to the operator as it is, with no line end added.
    Show { text: Seq<char> },
    /// Show a line to the operator on the error stream.
    Trace { text: Seq<char> },
    /// Show bytes to the operator as they are.
    Forward { bytes: Seq<u8> },
    /// Show bytes on the error stream as they are.
    ForwardError { bytes: Seq<u8> },
    /// Read one line that the operator types.
    Ask,
    /// From now on let keys come one by one, and unseen.
    TakeKeys,
    /// From now on let keys come line by line, as before.
    LeaveKeys,
    /// Wait for a key.
    KeyWithin { millis: nat },
    /// Ask whether the operator sits at a terminal.
    Interactive,
    /// Read a file as text.
    ReadFile { path: Seq<char> },
    /// Read a file as bytes.
    ReadBytes { path: Seq<char> },
    /// Put `bytes` in place of what the file holds.
    WriteFile { path: Seq<char>, bytes: Seq<u8> },
    /// Put `bytes` behind what the file holds.
    AppendFile { path: Seq<char>, bytes: Seq<u8> },
    /// Copy one file over another.
    CopyFile { from: Seq<char>, to: Seq<char> },
    /// Rename a file over another.
    RenameFile { from: Seq<char>, to: Seq<char> },
    /// Let everyone run a file, and its owner write it.
    MakeExecutable { path: Seq<char> },
    /// Remove a file.
    RemoveFile { path: Seq<char> },
    /// Make a directory and the directories above it.
    MakeDirs { path: Seq<char> },
    /// Remove an empty directory.
    RemoveDir { path: Seq<char> },
    /// Remove a directory and all that is in it.
    RemoveTree { path: Seq<char> },
    /// Ask whether there is anything at a path.
    Exists { path: Seq<char> },
    /// Ask whether a path is that of a file.
    IsFile { path: Seq<char> },
    /// Ask whether a path is that of a directory.
    IsDir { path: Seq<char> },
    /// List the names in a directory, with U+FFFD in place of what is no text.
    /// An entry that cannot be read is left out.
    ListDir { path: Seq<char> },
    /// List the names in a directory that are text. An entry that cannot be read
    /// is left out.
    ListTexts { path: Seq<char> },
    /// List the names in a directory, with U+FFFD in place of what is no text,
    /// up to an entry that cannot be read.
    ListUntil { path: Seq<char> },
    /// Read where a symbolic link points.
    ReadLink { path: Seq<char> },
    /// Read an environment variable.
    Env { name: Seq<char> },
    /// Ask for the path of the running program.
    Exe,
    /// Read the clock.
    Clock,
    /// Ask for this process's number.
    Pid,
    /// Restart the machine.
    Reboot,
}

/// A step of a call that handles more than one program, feeds one, or adds to a
/// file.
#[derive(Debug, Clone, Copy, PartialEq, Eq, Structural)]
pub enum Step {
    /// Start the program, the first one of a pipe; open the file.
    Start,
    /// Get hold of its output, or of its input.
    Connect,
    /// Write its input; write to the file.
    Write,
    /// Start the second program of a pipe.
    StartNext,
    /// Wait for the program to end.
    Wait,
    /// Wait for the second program to end.
    WaitNext,
}

/// What the host gives back. A call reads the fields that it returns.
#[verifier::ext_equal]
pub struct Reply {
    /// The message, where the call could not be made.
    pub failure: Option<Seq<char>>,
    /// The step that failed, where there is more than one.
    pub step: Step,
    pub rc: int,
    /// Exit code of the second program of a pipe.
    pub to_rc: int,
    pub stdout: Seq<char>,
    /// What keeps the output from being text, where something does.
    pub garbled: Option<Seq<char>>,
    pub stderr: Seq<char>,
    /// The names in a directory.
    pub names: Seq<Seq<char>>,
    /// What ended a listing before its end, where something did.
    pub cut: Option<Seq<char>>,
    /// What a file holds, or what a program printed, byte by byte.
    pub bytes: Seq<u8>,
    /// What a program printed on its error stream, byte by byte.
    pub error_bytes: Seq<u8>,
    /// Nanoseconds since the beginning of 1970.
    pub nanos: u128,
    pub pid: u32,
    /// The answer to a question of yes or no.
    pub yes: bool,
}

/// The calls made so far, and the reply to the call of each number.
#[verifier::ext_equal]
pub struct World {
    pub calls: Seq<Call>,
    pub replies: spec_fn(nat) -> Reply,
}

/// What a program left behind.
pub struct Ran {
    pub rc: int,
    pub stdout: Seq<char>,
    pub stderr: Seq<char>,
}

/// What a program left behind whose output has to be text.
pub struct Printed {
    pub rc: int,
    pub stdout: Seq<char>,
    /// What keeps the output from being text, where something does.
    pub garbled: Option<Seq<char>>,
    pub stderr: Seq<char>,
}

/// What a program left behind whose output is passed on as it is.
pub struct Spilled {
    pub rc: int,
    pub bytes: Seq<u8>,
    pub error_bytes: Seq<u8>,
    pub stderr: Seq<char>,
}

impl World {
    /// The world once `c` has been asked.
    pub open spec fn after(self, c: Call) -> World {
        World { calls: self.calls.push(c), replies: self.replies }
    }

    /// The reply to the next call.
    pub open spec fn reply(self) -> Reply {
        (self.replies)(self.calls.len())
    }

    /// The next call's failure, or nothing to report.
    pub open spec fn unit(self) -> Result<(), Seq<char>> {
        match self.reply().failure {
            Some(m) => Err(m),
            None => Ok(()),
        }
    }

    /// The next call's failure, or the text that it gives.
    pub open spec fn line(self) -> Result<Seq<char>, Seq<char>> {
        match self.reply().failure {
            Some(m) => Err(m),
            None => Ok(self.reply().stdout),
        }
    }

    /// The next call's failure, or what the program left behind.
    pub open spec fn ran(self) -> Result<Ran, Seq<char>> {
        match self.reply().failure {
            Some(m) => Err(m),
            None => Ok(
                Ran { rc: self.reply().rc, stdout: self.reply().stdout, stderr: self.reply().stderr },
            ),
        }
    }

    /// The next call's failure, or what the program left behind, and whether it
    /// is text.
    pub open spec fn printed(self) -> Result<Printed, Seq<char>> {
        match self.reply().failure {
            Some(m) => Err(m),
            None => Ok(
                Printed {
                    rc: self.reply().rc,
                    stdout: self.reply().stdout,
                    garbled: self.reply().garbled,
                    stderr: self.reply().stderr,
                },
            ),
        }
    }

    /// The next call's failure, or what the program left behind, byte by byte.
    pub open spec fn spilled(self) -> Result<Spilled, Seq<char>> {
        match self.reply().failure {
            Some(m) => Err(m),
            None => Ok(
                Spilled {
                    rc: self.reply().rc,
                    bytes: self.reply().bytes,
                    error_bytes: self.reply().error_bytes,
                    stderr: self.reply().stderr,
                },
            ),
        }
    }

    /// The step of the next call that failed, and how; or the exit codes of the
    /// two programs.
    pub open spec fn piped(self) -> Result<(int, int), (Step, Seq<char>)> {
        match self.reply().failure {
            Some(m) => Err((self.reply().step, m)),
            None => Ok((self.reply().rc, self.reply().to_rc)),
        }
    }

    /// The step of the next call that failed, and how; or the exit code of the
    /// program.
    pub open spec fn fed(self) -> Result<int, (Step, Seq<char>)> {
        match self.reply().failure {
            Some(m) => Err((self.reply().step, m)),
            None => Ok(self.reply().rc),
        }
    }

    /// The next call's failure, or the exit code of the program.
    pub open spec fn code(self) -> Result<i32, Seq<char>> {
        match self.reply().failure {
            Some(m) => Err(m),
            None => Ok(self.reply().rc as i32),
        }
    }

    /// The next call's failure, or the bytes that it gives.
    pub open spec fn raw(self) -> Result<Seq<u8>, Seq<char>> {
        match self.reply().failure {
            Some(m) => Err(m),
            None => Ok(self.reply().bytes),
        }
    }

    /// The next call's failure, or the names that it gives.
    pub open spec fn listed(self) -> Result<Seq<Seq<char>>, Seq<char>> {
        match self.reply().failure {
            Some(m) => Err(m),
            None => Ok(self.reply().names),
        }
    }

    /// The next call's failure, or the names that it gives and what cut them
    /// short.
    pub open spec fn listed_until(self) -> Result<
        (Seq<Seq<char>>, Option<Seq<char>>),
        Seq<char>,
    > {
        match self.reply().failure {
            Some(m) => Err(m),
            None => Ok((self.reply().names, self.reply().cut)),
        }
    }

    /// The step of the next call that failed, and how; or nothing to report.
    pub open spec fn stepped(self) -> Result<(), (Step, Seq<char>)> {
        match self.reply().failure {
            Some(m) => Err((self.reply().step, m)),
            None => Ok(()),
        }
    }

    /// The next call's failure, or its yes or no.
    pub open spec fn answered(self) -> Result<bool, Seq<char>> {
        match self.reply().failure {
            Some(m) => Err(m),
            None => Ok(self.reply().yes),
        }
    }

    /// The text that the next call gives, if it gives any; what is no text is
    /// mended.
    pub open spec fn mended(self) -> Option<Seq<char>> {
        match self.reply().failure {
            Some(_) => None,
            None => Some(self.reply().stdout),
        }
    }

    /// The text that the next call gives, if it gives any.
    pub open spec fn maybe(self) -> Option<Seq<char>> {
        if self.reply().garbled is Some {
            None
        } else {
            self.mended()
        }
    }

    pub open spec fn run(self, prog: Seq<char>, args: Seq<Seq<char>>) -> World {
        self.after(Call::Run { prog, args })
    }

    pub open spec fn say(self, text: Seq<char>) -> World {
        self.after(Call::Say { text })
    }

    pub open spec fn show(self, text: Seq<char>) -> World {
        self.after(Call::Show { text })
    }

    pub open spec fn trace(self, text: Seq<char>) -> World {
        self.after(Call::Trace { text })
    }
}

/// A command that changes nothing: a query of `zfs` or `zpool`, or one of the
/// programs that list devices, mounts and what is on them.
pub open spec fn query(prog: Seq<char>, args: Seq<Seq<char>>) -> bool {
    ||| (prog == "zfs"@ || prog == "zpool"@) && args.len() > 0 && (args[0] == "list"@ || args[0]
        == "get"@)
    ||| prog == "lsblk"@
    ||| prog == "findmnt"@
    ||| prog == "wipefs"@ && args.len() > 0 && args[0] == "--noheadings"@ && args.contains("-n"@)
}

/// A call that changes nothing: a query, a file that is read, text that is
/// shown, a question about the host.
pub open spec fn harmless(c: Call) -> bool {
    match c {
        Call::Run { prog, args } => query(prog, args),
        Call::Say { text } => true,
        Call::Show { text } => true,
        Call::Forward { bytes } => true,
        Call::ReadFile { path } => true,
        Call::ReadBytes { path } => true,
        Call::Exists { path } => true,
        Call::IsFile { path } => true,
        Call::IsDir { path } => true,
        Call::ListDir { path } => true,
        Call::ListTexts { path } => true,
        Call::ListUntil { path } => true,
        Call::ReadLink { path } => true,
        Call::Env { name } => true,
        Call::Exe => true,
        Call::Interactive => true,
        Call::Clock => true,
        Call::Pid => true,
        _ => false,
    }
}

/// `b` is `a` after some further calls.
pub open spec fn continues(a: World, b: World) -> bool {
    &&& a.replies == b.replies
    &&& a.calls.len() <= b.calls.len()
    &&& forall|i: int| 0 <= i < a.calls.len() ==> #[trigger] b.calls[i] == a.calls[i]
}

/// `b` is `a` after some further calls, none of which changes anything.
pub open spec fn only_looked(a: World, b: World) -> bool {
    &&& continues(a, b)
    &&& forall|i: int| a.calls.len() <= i < b.calls.len() ==> harmless(#[trigger] b.calls[i])
}

/// `b` is `a` after some further calls, and those that change anything are all
/// among the `allowed` ones. A line on the error stream changes nothing.
pub open spec fn did_only(a: World, b: World, allowed: spec_fn(Call) -> bool) -> bool {
    &&& continues(a, b)
    &&& forall|i: int|
        a.calls.len() <= i < b.calls.len() ==> {
            ||| harmless(#[trigger] b.calls[i])
            ||| b.calls[i] is Trace
            ||| allowed(b.calls[i])
        }
}

/// `c` is among the calls that lead from `a` to `b`.
pub open spec fn called(a: World, b: World, c: Call) -> bool {
    exists|i: int| a.calls.len() <= i < b.calls.len() && #[trigger] b.calls[i] == c
}

// ---------------------------------------------------------------------------
// The runner
// ---------------------------------------------------------------------------

/// One thing asked of the host, as it is handed over.
#[derive(Debug, Clone)]
pub enum Request {
    /// Run a program to its end, with its output captured.
    Run { prog: String, args: Vec<String> },
    /// Run a program to its end on the operator's terminal.
    Attend { prog: String, args: Vec<String> },
    /// Run a program on the operator's terminal, with variables added to its
    /// environment.
    RunWith { prog: String, args: Vec<String>, env: Vec<(String, String)> },
    /// Run two programs, the output of the first being the input of the second.
    Pipe { prog: String, args: Vec<String>, to_prog: String, to_args: Vec<String> },
    /// Run a program with `input` on its standard input.
    Feed { prog: String, args: Vec<String>, input: String },
    /// Show a line to the operator.
    Say { text: String },
    /// Show text to the operator as it is, with no line end added.
    Show { text: String },
    /// Show a line to the operator on the error stream.
    Trace { text: String },
    /// Show bytes to the operator as they are.
    Forward { bytes: Vec<u8> },
    /// Show bytes on the error stream as they are.
    ForwardError { bytes: Vec<u8> },
    /// Read one line that the operator types.
    Ask,
    /// From now on let keys come one by one, and unseen.
    TakeKeys,
    /// From now on let keys come line by line, as before.
    LeaveKeys,
    /// Wait for a key.
    KeyWithin { millis: u64 },
    /// Ask whether the operator sits at a terminal.
    Interactive,
    /// Read a file as text.
    ReadFile { path: String },
    /// Read a file as bytes.
    ReadBytes { path: String },
    /// Put `bytes` in place of what the file holds.
    WriteFile { path: String, bytes: Vec<u8> },
    /// Put `bytes` behind what the file holds.
    AppendFile { path: String, bytes: Vec<u8> },
    /// Copy one file over another.
    CopyFile { from: String, to: String },
    /// Rename a file over another.
    RenameFile { from: String, to: String },
    /// Let everyone run a file, and its owner write it.
    MakeExecutable { path: String },
    /// Remove a file.
    RemoveFile { path: String },
    /// Make a directory and the directories above it.
    MakeDirs { path: String },
    /// Remove an empty directory.
    RemoveDir { path: String },
    /// Remove a directory and all that is in it.
    RemoveTree { path: String },
    /// Ask whether there is anything at a path.
    Exists { path: String },
    /// Ask whether a path is that of a file.
    IsFile { path: String },
    /// Ask whether a path is that of a directory.
    IsDir { path: String },
    /// List the names in a directory, with U+FFFD in place of what is no text.
    /// An entry that cannot be read is left out.
    ListDir { path: String },
    /// List the names in a directory that are text. An entry that cannot be read
    /// is left out.
    ListTexts { path: String },
    /// List the names in a directory, with U+FFFD in place of what is no text,
    /// up to an entry that cannot be read.
    ListUntil { path: String },
    /// Read where a symbolic link points.
    ReadLink { path: String },
    /// Read an environment variable.
    Env { name: String },
    /// Ask for the path of the running program.
    Exe,
    /// Read the clock.
    Clock,
    /// Ask for this process's number.
    Pid,
    /// Restart the machine.
    Reboot,
}

impl DeepView for Request {
    type V = Call;

    open spec fn deep_view(&self) -> Call {
        match *self {
            Request::Run { prog, args } => Call::Run { prog: prog@, args: args.deep_view() },
            Request::Attend { prog, args } => Call::Attend { prog: prog@, args: args.deep_view() },
            Request::RunWith { prog, args, env } => Call::RunWith { prog: prog@, args: args.deep_view(), env: env.deep_view() },
            Request::Pipe { prog, args, to_prog, to_args } => Call::Pipe { prog: prog@, args: args.deep_view(), to_prog: to_prog@, to_args: to_args.deep_view() },
            Request::Feed { prog, args, input } => Call::Feed { prog: prog@, args: args.deep_view(), input: input@ },
            Request::Say { text } => Call::Say { text: text@ },
            Request::Show { text } => Call::Show { text: text@ },
            Request::Trace { text } => Call::Trace { text: text@ },
            Request::Forward { bytes } => Call::Forward { bytes: bytes@ },
            Request::ForwardError { bytes } => Call::ForwardError { bytes: bytes@ },
            Request::TakeKeys => Call::TakeKeys,
            Request::LeaveKeys => Call::LeaveKeys,
            Request::Ask => Call::Ask,
            Request::KeyWithin { millis } => Call::KeyWithin { millis: millis as nat },
            Request::Interactive => Call::Interactive,
            Request::ReadFile { path } => Call::ReadFile { path: path@ },
            Request::ReadBytes { path } => Call::ReadBytes { path: path@ },
            Request::WriteFile { path, bytes } => Call::WriteFile { path: path@, bytes: bytes@ },
            Request::AppendFile { path, bytes } => Call::AppendFile { path: path@, bytes: bytes@ },
            Request::CopyFile { from, to } => Call::CopyFile { from: from@, to: to@ },
            Request::RenameFile { from, to } => Call::RenameFile { from: from@, to: to@ },
            Request::MakeExecutable { path } => Call::MakeExecutable { path: path@ },
            Request::RemoveFile { path } => Call::RemoveFile { path: path@ },
            Request::MakeDirs { path } => Call::MakeDirs { path: path@ },
            Request::RemoveDir { path } => Call::RemoveDir { path: path@ },
            Request::RemoveTree { path } => Call::RemoveTree { path: path@ },
            Request::Exists { path } => Call::Exists { path: path@ },
            Request::IsFile { path } => Call::IsFile { path: path@ },
            Request::IsDir { path } => Call::IsDir { path: path@ },
            Request::ListDir { path } => Call::ListDir { path: path@ },
            Request::ListTexts { path } => Call::ListTexts { path: path@ },
            Request::ListUntil { path } => Call::ListUntil { path: path@ },
            Request::ReadLink { path } => Call::ReadLink { path: path@ },
            Request::Env { name } => Call::Env { name: name@ },
            Request::Exe => Call::Exe,
            Request::Clock => Call::Clock,
            Request::Pid => Call::Pid,
            Request::Reboot => Call::Reboot,
        }
    }
}

/// What the host gives back.
#[derive(Debug, Clone)]
pub struct Answer {
    /// The message, where the call could not be made.
    pub failure: Option<String>,
    /// The step that failed, where there is more than one.
    pub step: Step,
    /// Exit code, -1 for a program that a signal ended.
    pub rc: i32,
    /// Exit code of the second program of a pipe.
    pub to_rc: i32,
    /// What a program printed, with U+FFFD in place of what is no text.
    pub stdout: String,
    /// What keeps the output from being text, where something does.
    pub garbled: Option<String>,
    pub stderr: String,
    /// The names in a directory.
    pub names: Vec<String>,
    /// What ended a listing before its end, where something did.
    pub cut: Option<String>,
    /// What a file holds, or what a program printed, byte by byte.
    pub bytes: Vec<u8>,
    /// What a program printed on its error stream, byte by byte.
    pub error_bytes: Vec<u8>,
    /// Nanoseconds since the beginning of 1970.
    pub nanos: u128,
    pub pid: u32,
    /// The answer to a question of yes or no.
    pub yes: bool,
}

impl DeepView for Answer {
    type V = Reply;

    open spec fn deep_view(&self) -> Reply {
        Reply {
            failure: self.failure.deep_view(),
            step: self.step,
            rc: self.rc as int,
            to_rc: self.to_rc as int,
            stdout: self.stdout@,
            garbled: self.garbled.deep_view(),
            stderr: self.stderr@,
            names: self.names.deep_view(),
            cut: self.cut.deep_view(),
            bytes: self.bytes@,
            error_bytes: self.error_bytes@,
            nanos: self.nanos,
            pid: self.pid,
            yes: self.yes,
        }
    }
}

/// The answer that says nothing: done, exit code 0, no output.
pub open spec fn silence() -> Reply {
    Reply {
        failure: None,
        step: Step::Start,
        rc: 0,
        to_rc: 0,
        stdout: seq![],
        garbled: None,
        stderr: seq![],
        names: seq![],
        cut: None,
        bytes: seq![],
        error_bytes: seq![],
        nanos: 0,
        pid: 0,
        yes: false,
    }
}

impl Default for Answer {
    fn default() -> (a: Answer)
        ensures
            a.deep_view() == silence(),
    {
        let a = Answer {
            failure: None,
            step: Step::Start,
            rc: 0,
            to_rc: 0,
            stdout: String::new(),
            garbled: None,
            stderr: String::new(),
            names: Vec::new(),
            cut: None,
            bytes: Vec::new(),
            error_bytes: Vec::new(),
            nanos: 0,
            pid: 0,
            yes: false,
        };
        assert(a.deep_view() =~= silence());
        a
    }
}

/// Captured output of a single command invocation. `rc` is -1 for a program
/// that a signal ended.
#[derive(Debug, Clone)]
pub struct RunOutput {
    pub rc: i32,
    pub stdout: String,
    pub stderr: String,
}

impl DeepView for RunOutput {
    type V = Ran;

    open spec fn deep_view(&self) -> Ran {
        Ran { rc: self.rc as int, stdout: self.stdout@, stderr: self.stderr@ }
    }
}

/// Captured output of a command whose output has to be text.
#[derive(Debug, Clone)]
pub struct PrintOutput {
    pub rc: i32,
    /// What the program printed, with U+FFFD in place of what is no text.
    pub stdout: String,
    /// What keeps the output from being text, where something does.
    pub garbled: Option<String>,
    pub stderr: String,
}

impl DeepView for PrintOutput {
    type V = Printed;

    open spec fn deep_view(&self) -> Printed {
        Printed {
            rc: self.rc as int,
            stdout: self.stdout@,
            garbled: self.garbled.deep_view(),
            stderr: self.stderr@,
        }
    }
}

/// Captured output of a command whose output is passed on as it is.
#[derive(Debug, Clone)]
pub struct RawOutput {
    pub rc: i32,
    pub bytes: Vec<u8>,
    pub error_bytes: Vec<u8>,
    /// What the program printed on its error stream, with U+FFFD in place of
    /// what is no text.
    pub stderr: String,
}

impl DeepView for RawOutput {
    type V = Spilled;

    open spec fn deep_view(&self) -> Spilled {
        Spilled {
            rc: self.rc as int,
            bytes: self.bytes@,
            error_bytes: self.error_bytes@,
            stderr: self.stderr@,
        }
    }
}

/// A step that failed, and how.
#[derive(Debug, Clone)]
pub struct Fault {
    pub step: Step,
    pub message: String,
}

impl Fault {
    /// What went wrong, without saying where.
    pub fn plain(self) -> (e: Error)
        ensures
            e@ == self.message@,
            e.outermost@ == self.message@,
    {
        Error::from_text(self.message)
    }

    /// What went wrong with `what`.
    pub fn with(self, what: &str) -> (e: Error)
        ensures
            e@ == error::within(what@, self.message@),
            e.outermost@ == what@,
    {
        Error::from_text(self.message).context(what)
    }
}

/// What was returned, with an error taken for its step and message.
pub open spec fn stepwise<T: DeepView>(r: Result<T, Fault>) -> Result<T::V, (Step, Seq<char>)> {
    match r {
        Ok(v) => Ok(v.deep_view()),
        Err(f) => Err((f.step, f.message@)),
    }
}

/// Exit codes of the two programs of a pipe.
#[derive(Debug, Clone)]
pub struct PipeOutput {
    pub rc: i32,
    pub to_rc: i32,
}

impl DeepView for PipeOutput {
    type V = (int, int);

    open spec fn deep_view(&self) -> (int, int) {
        (self.rc as int, self.to_rc as int)
    }
}

/// The strings of an argument list.
fn owned(args: &[&str]) -> (r: Vec<String>)
    ensures
        r.deep_view() == args.deep_view(),
{
    let mut out: Vec<String> = Vec::new();
    let mut i: usize = 0;
    assert(out.deep_view() =~= args.deep_view().take(0));
    while i < args.len()
        invariant
            i <= args@.len(),
            out.deep_view() == args.deep_view().take(i as int),
        decreases args@.len() - i,
    {
        text::push_text(&mut out, args[i]);
        assert(args.deep_view().take(i + 1) =~= args.deep_view().take(i as int).push(
            args@[i as int]@,
        ));
        i = i + 1;
    }
    assert(args.deep_view().take(i as int) =~= args.deep_view());
    out
}

fn bytes_of(b: &[u8]) -> (r: Vec<u8>)
    ensures
        r@ == b@,
{
    let mut out: Vec<u8> = Vec::new();
    let mut i: usize = 0;
    while i < b.len()
        invariant
            i <= b@.len(),
            out@ == b@.take(i as int),
        decreases b@.len() - i,
    {
        out.push(b[i]);
        i = i + 1;
    }
    out
}

fn unit_of(a: Answer) -> (r: Result<(), Error>)
    ensures
        error::outcome(r) == (match a.deep_view().failure {
            Some(m) => Err::<(), Seq<char>>(m),
            None => Ok(()),
        }),
{
    match a.failure {
        Some(m) => Err(Error::from_text(m)),
        None => Ok(()),
    }
}

fn text_of(a: Answer) -> (r: Result<String, Error>)
    ensures
        error::outcome(r) == (match a.deep_view().failure {
            Some(m) => Err::<Seq<char>, Seq<char>>(m),
            None => Ok(a.deep_view().stdout),
        }),
{
    match a.failure {
        Some(m) => Err(Error::from_text(m)),
        None => Ok(a.stdout),
    }
}

fn ran_of(a: Answer) -> (r: Result<RunOutput, Error>)
    ensures
        error::outcome(r) == (match a.deep_view().failure {
            Some(m) => Err::<Ran, Seq<char>>(m),
            None => Ok(
                Ran {
                    rc: a.deep_view().rc,
                    stdout: a.deep_view().stdout,
                    stderr: a.deep_view().stderr,
                },
            ),
        }),
{
    match a.failure {
        Some(m) => Err(Error::from_text(m)),
        None => Ok(RunOutput { rc: a.rc, stdout: a.stdout, stderr: a.stderr }),
    }
}

fn printed_of(a: Answer) -> (r: Result<PrintOutput, Error>)
    ensures
        error::outcome(r) == (match a.deep_view().failure {
            Some(m) => Err::<Printed, Seq<char>>(m),
            None => Ok(
                Printed {
                    rc: a.deep_view().rc,
                    stdout: a.deep_view().stdout,
                    garbled: a.deep_view().garbled,
                    stderr: a.deep_view().stderr,
                },
            ),
        }),
{
    match a.failure {
        Some(m) => Err(Error::from_text(m)),
        None => Ok(
            PrintOutput { rc: a.rc, stdout: a.stdout, garbled: a.garbled, stderr: a.stderr },
        ),
    }
}

fn code_of(a: Answer) -> (r: Result<i32, Error>)
    ensures
        error::outcome(r) == (match a.deep_view().failure {
            Some(m) => Err::<i32, Seq<char>>(m),
            None => Ok(a.deep_view().rc as i32),
        }),
{
    match a.failure {
        Some(m) => Err(Error::from_text(m)),
        None => Ok(a.rc),
    }
}

/// The host as the verbs see it. An implementation says where the answers
/// come from, by [`Runner::perform`]; every call is recorded, whatever its
/// reply.
pub trait Runner {
    /// The calls made through this runner, and the replies they meet.
    spec fn world(&self) -> World;

    /// Asks one thing of the host.
    fn perform(&mut self, q: Request) -> (a: Answer)
        ensures
            final(self).world() == old(self).world().after(q.deep_view()),
            a.deep_view() == old(self).world().reply(),
    ;

    /// Runs a program to its end.
    fn run(&mut self, prog: &str, args: &[&str]) -> (r: Result<RunOutput, Error>)
        ensures
            final(self).world() == old(self).world().after(Call::Run { prog: prog@, args: args.deep_view() }),
            error::outcome(r) == old(self).world().ran(),
    {
        let q = Request::Run { prog: prog.to_owned(), args: owned(args) };
        ran_of(self.perform(q))
    }

    /// Runs a program to its end whose output has to be text.
    fn read(&mut self, prog: &str, args: &[&str]) -> (r: Result<PrintOutput, Error>)
        ensures
            final(self).world() == old(self).world().after(Call::Run { prog: prog@, args: args.deep_view() }),
            error::outcome(r) == old(self).world().printed(),
    {
        let q = Request::Run { prog: prog.to_owned(), args: owned(args) };
        printed_of(self.perform(q))
    }

    /// Runs a program to its end whose output is passed on as it is.
    fn spill(&mut self, prog: &str, args: &[&str]) -> (r: Result<RawOutput, Error>)
        ensures
            final(self).world() == old(self).world().after(Call::Run { prog: prog@, args: args.deep_view() }),
            error::outcome(r) == old(self).world().spilled(),
    {
        let q = Request::Run { prog: prog.to_owned(), args: owned(args) };
        let a = self.perform(q);
        match a.failure {
            Some(m) => Err(Error::from_text(m)),
            None => Ok(
                RawOutput {
                    rc: a.rc,
                    bytes: a.bytes,
                    error_bytes: a.error_bytes,
                    stderr: a.stderr,
                },
            ),
        }
    }

    /// Runs a program to its end on the operator's terminal.
    fn attend(&mut self, prog: &str, args: &[&str]) -> (r: Result<i32, Error>)
        ensures
            final(self).world() == old(self).world().after(Call::Attend { prog: prog@, args: args.deep_view() }),
            error::outcome(r) == old(self).world().code(),
    {
        let q = Request::Attend { prog: prog.to_owned(), args: owned(args) };
        code_of(self.perform(q))
    }

    /// Runs a program on the operator's terminal, with variables added to its
    /// environment.
    fn run_with(&mut self, prog: &str, args: &[&str], env: Vec<(String, String)>) -> (r: Result<i32, Error>)
        ensures
            final(self).world() == old(self).world().after(Call::RunWith { prog: prog@, args: args.deep_view(), env: env.deep_view() }),
            error::outcome(r) == old(self).world().code(),
    {
        let q = Request::RunWith { prog: prog.to_owned(), args: owned(args), env: env };
        code_of(self.perform(q))
    }

    /// Runs two programs, the first writing to the second.
    fn pipe(&mut self, prog: &str, args: &[&str], to_prog: &str, to_args: &[&str]) -> (r: Result<PipeOutput, Fault>)
        ensures
            final(self).world() == old(self).world().after(
                Call::Pipe {
                    prog: prog@,
                    args: args.deep_view(),
                    to_prog: to_prog@,
                    to_args: to_args.deep_view(),
                },
            ),
            stepwise(r) == old(self).world().piped(),
    {
        let q = Request::Pipe {
            prog: prog.to_owned(),
            args: owned(args),
            to_prog: to_prog.to_owned(),
            to_args: owned(to_args),
        };
        let a = self.perform(q);
        match a.failure {
            Some(m) => Err(Fault { step: a.step, message: m }),
            None => Ok(PipeOutput { rc: a.rc, to_rc: a.to_rc }),
        }
    }

    /// Runs a program with `input` on its standard input; tells its exit code.
    fn feed(&mut self, prog: &str, args: &[&str], input: &str) -> (r: Result<i32, Fault>)
        ensures
            final(self).world() == old(self).world().after(
                Call::Feed { prog: prog@, args: args.deep_view(), input: input@ },
            ),
            (match r {
                Ok(rc) => Ok(rc as int),
                Err(f) => Err((f.step, f.message@)),
            }) == old(self).world().fed(),
    {
        let q = Request::Feed {
            prog: prog.to_owned(),
            args: owned(args),
            input: input.to_owned(),
        };
        let a = self.perform(q);
        match a.failure {
            Some(m) => Err(Fault { step: a.step, message: m }),
            None => Ok(a.rc),
        }
    }

    /// Shows a line to the operator, whether or not it can be shown.
    fn say(&mut self, text: &str)
        ensures
            final(self).world() == old(self).world().after(Call::Say { text: text@ }),
    {
        self.perform(Request::Say { text: text.to_owned() });
    }

    /// Shows a line to the operator, and tells whether it could be shown.
    fn tell(&mut self, text: &str) -> (r: Result<(), Error>)
        ensures
            final(self).world() == old(self).world().after(Call::Say { text: text@ }),
            error::outcome(r) == old(self).world().unit(),
    {
        unit_of(self.perform(Request::Say { text: text.to_owned() }))
    }

    /// Shows text to the operator as it is, and tells whether it could be
    /// shown.
    fn put(&mut self, text: &str) -> (r: Result<(), Error>)
        ensures
            final(self).world() == old(self).world().after(Call::Show { text: text@ }),
            error::outcome(r) == old(self).world().unit(),
    {
        unit_of(self.perform(Request::Show { text: text.to_owned() }))
    }

    /// Shows a line to the operator on the error stream.
    fn trace(&mut self, text: &str)
        ensures
            final(self).world() == old(self).world().after(Call::Trace { text: text@ }),
    {
        self.perform(Request::Trace { text: text.to_owned() });
    }

    /// Shows bytes to the operator as they are, and tells whether they could be
    /// shown.
    fn forward(&mut self, bytes: &[u8]) -> (r: Result<(), Error>)
        ensures
            final(self).world() == old(self).world().after(Call::Forward { bytes: bytes@ }),
            error::outcome(r) == old(self).world().unit(),
    {
        unit_of(self.perform(Request::Forward { bytes: bytes_of(bytes) }))
    }

    /// Shows bytes on the error stream as they are, whether or not they can be
    /// shown.
    fn forward_error(&mut self, bytes: &[u8])
        ensures
            final(self).world() == old(self).world().after(Call::ForwardError { bytes: bytes@ }),
    {
        self.perform(Request::ForwardError { bytes: bytes_of(bytes) });
    }

    /// Lets keys come one by one, and unseen.
    fn take_keys(&mut self) -> (r: Result<(), Error>)
        ensures
            final(self).world() == old(self).world().after(Call::TakeKeys),
            error::outcome(r) == old(self).world().unit(),
    {
        unit_of(self.perform(Request::TakeKeys))
    }

    /// Lets keys come line by line again.
    fn leave_keys(&mut self)
        ensures
            final(self).world() == old(self).world().after(Call::LeaveKeys),
    {
        self.perform(Request::LeaveKeys);
    }

    /// Reads one line that the operator types; empty at the end of input.
    fn ask(&mut self) -> (r: Result<String, Error>)
        ensures
            final(self).world() == old(self).world().after(Call::Ask),
            error::outcome(r) == old(self).world().line(),
    {
        text_of(self.perform(Request::Ask))
    }

    /// Waits for a key, for so many milliseconds at most.
    fn key_within(&mut self, millis: u64) -> (r: Result<bool, Error>)
        ensures
            final(self).world() == old(self).world().after(Call::KeyWithin { millis: millis as nat }),
            error::outcome(r) == old(self).world().answered(),
    {
        let a = self.perform(Request::KeyWithin { millis });
        match a.failure {
            Some(m) => Err(Error::from_text(m)),
            None => Ok(a.yes),
        }
    }

    /// Whether the operator sits at a terminal.
    fn interactive(&mut self) -> (r: bool)
        ensures
            final(self).world() == old(self).world().after(Call::Interactive),
            r == old(self).world().reply().yes,
    {
        self.perform(Request::Interactive).yes
    }

    /// Reads a file as text.
    fn read_file(&mut self, path: &str) -> (r: Result<String, Error>)
        ensures
            final(self).world() == old(self).world().after(Call::ReadFile { path: path@ }),
            error::outcome(r) == old(self).world().line(),
    {
        text_of(self.perform(Request::ReadFile { path: path.to_owned() }))
    }

    /// Reads a file as bytes.
    fn read_bytes(&mut self, path: &str) -> (r: Result<Vec<u8>, Error>)
        ensures
            final(self).world() == old(self).world().after(Call::ReadBytes { path: path@ }),
            (match r {
                Ok(v) => Ok(v@),
                Err(e) => Err(e@),
            }) == old(self).world().raw(),
    {
        let a = self.perform(Request::ReadBytes { path: path.to_owned() });
        match a.failure {
            Some(m) => Err(Error::from_text(m)),
            None => Ok(a.bytes),
        }
    }

    /// Puts `bytes` in place of what the file holds.
    fn write_file(&mut self, path: &str, bytes: &[u8]) -> (r: Result<(), Error>)
        ensures
            final(self).world() == old(self).world().after(Call::WriteFile { path: path@, bytes: bytes@ }),
            error::outcome(r) == old(self).world().unit(),
    {
        let q = Request::WriteFile { path: path.to_owned(), bytes: bytes_of(bytes) };
        unit_of(self.perform(q))
    }

    /// Puts `bytes` behind what the file holds.
    fn append_file(&mut self, path: &str, bytes: &[u8]) -> (r: Result<(), Fault>)
        ensures
            final(self).world() == old(self).world().after(Call::AppendFile { path: path@, bytes: bytes@ }),
            stepwise(r) == old(self).world().stepped(),
    {
        let q = Request::AppendFile { path: path.to_owned(), bytes: bytes_of(bytes) };
        let a = self.perform(q);
        match a.failure {
            Some(m) => Err(Fault { step: a.step, message: m }),
            None => Ok(()),
        }
    }

    /// Copies one file over another.
    fn copy_file(&mut self, from: &str, to: &str) -> (r: Result<(), Error>)
        ensures
            final(self).world() == old(self).world().after(Call::CopyFile { from: from@, to: to@ }),
            error::outcome(r) == old(self).world().unit(),
    {
        let q = Request::CopyFile { from: from.to_owned(), to: to.to_owned() };
        unit_of(self.perform(q))
    }

    /// Renames a file over another.
    fn rename_file(&mut self, from: &str, to: &str) -> (r: Result<(), Error>)
        ensures
            final(self).world() == old(self).world().after(Call::RenameFile { from: from@, to: to@ }),
            error::outcome(r) == old(self).world().unit(),
    {
        let q = Request::RenameFile { from: from.to_owned(), to: to.to_owned() };
        unit_of(self.perform(q))
    }

    /// Lets everyone run a file, and its owner write it.
    fn make_executable(&mut self, path: &str) -> (r: Result<(), Error>)
        ensures
            final(self).world() == old(self).world().after(Call::MakeExecutable { path: path@ }),
            error::outcome(r) == old(self).world().unit(),
    {
        unit_of(self.perform(Request::MakeExecutable { path: path.to_owned() }))
    }

    /// Removes a file.
    fn remove_file(&mut self, path: &str) -> (r: Result<(), Error>)
        ensures
            final(self).world() == old(self).world().after(Call::RemoveFile { path: path@ }),
            error::outcome(r) == old(self).world().unit(),
    {
        unit_of(self.perform(Request::RemoveFile { path: path.to_owned() }))
    }

    /// Makes a directory and the directories above it.
    fn make_dirs(&mut self, path: &str) -> (r: Result<(), Error>)
        ensures
            final(self).world() == old(self).world().after(Call::MakeDirs { path: path@ }),
            error::outcome(r) == old(self).world().unit(),
    {
        unit_of(self.perform(Request::MakeDirs { path: path.to_owned() }))
    }

    /// Removes an empty directory.
    fn remove_dir(&mut self, path: &str) -> (r: Result<(), Error>)
        ensures
            final(self).world() == old(self).world().after(Call::RemoveDir { path: path@ }),
            error::outcome(r) == old(self).world().unit(),
    {
        unit_of(self.perform(Request::RemoveDir { path: path.to_owned() }))
    }

    /// Removes a directory and all that is in it.
    fn remove_tree(&mut self, path: &str) -> (r: Result<(), Error>)
        ensures
            final(self).world() == old(self).world().after(Call::RemoveTree { path: path@ }),
            error::outcome(r) == old(self).world().unit(),
    {
        unit_of(self.perform(Request::RemoveTree { path: path.to_owned() }))
    }

    /// Whether there is anything at a path.
    fn present(&mut self, path: &str) -> (r: bool)
        ensures
            final(self).world() == old(self).world().after(Call::Exists { path: path@ }),
            r == old(self).world().reply().yes,
    {
        self.perform(Request::Exists { path: path.to_owned() }).yes
    }

    /// Whether a path is that of a file.
    fn is_file(&mut self, path: &str) -> (r: bool)
        ensures
            final(self).world() == old(self).world().after(Call::IsFile { path: path@ }),
            r == old(self).world().reply().yes,
    {
        self.perform(Request::IsFile { path: path.to_owned() }).yes
    }

    /// Whether a path is that of a directory.
    fn is_dir(&mut self, path: &str) -> (r: bool)
        ensures
            final(self).world() == old(self).world().after(Call::IsDir { path: path@ }),
            r == old(self).world().reply().yes,
    {
        self.perform(Request::IsDir { path: path.to_owned() }).yes
    }

    /// The names in a directory.
    fn list_dir(&mut self, path: &str) -> (r: Result<Vec<String>, Error>)
        ensures
            final(self).world() == old(self).world().after(Call::ListDir { path: path@ }),
            error::outcome(r) == old(self).world().listed(),
    {
        let a = self.perform(Request::ListDir { path: path.to_owned() });
        match a.failure {
            Some(m) => Err(Error::from_text(m)),
            None => Ok(a.names),
        }
    }

    /// The names in a directory that are text.
    fn list_texts(&mut self, path: &str) -> (r: Result<Vec<String>, Error>)
        ensures
            final(self).world() == old(self).world().after(Call::ListTexts { path: path@ }),
            error::outcome(r) == old(self).world().listed(),
    {
        let a = self.perform(Request::ListTexts { path: path.to_owned() });
        match a.failure {
            Some(m) => Err(Error::from_text(m)),
            None => Ok(a.names),
        }
    }

    /// The names in a directory up to an entry that cannot be read, and why not.
    fn list_until(&mut self, path: &str) -> (r: Result<(Vec<String>, Option<String>), Error>)
        ensures
            final(self).world() == old(self).world().after(Call::ListUntil { path: path@ }),
            error::outcome(r) == old(self).world().listed_until(),
    {
        let a = self.perform(Request::ListUntil { path: path.to_owned() });
        match a.failure {
            Some(m) => Err(Error::from_text(m)),
            None => Ok((a.names, a.cut)),
        }
    }

    /// Where a symbolic link points.
    fn read_link(&mut self, path: &str) -> (r: Result<String, Error>)
        ensures
            final(self).world() == old(self).world().after(Call::ReadLink { path: path@ }),
            error::outcome(r) == old(self).world().line(),
    {
        text_of(self.perform(Request::ReadLink { path: path.to_owned() }))
    }

    /// An environment variable, where it is set and is text.
    fn env(&mut self, name: &str) -> (r: Option<String>)
        ensures
            final(self).world() == old(self).world().after(Call::Env { name: name@ }),
            r.deep_view() == old(self).world().maybe(),
    {
        let a = self.perform(Request::Env { name: name.to_owned() });
        if a.failure.is_some() || a.garbled.is_some() {
            None
        } else {
            Some(a.stdout)
        }
    }

    /// An environment variable, where it is set, with U+FFFD in place of what is
    /// no text.
    fn env_mended(&mut self, name: &str) -> (r: Option<String>)
        ensures
            final(self).world() == old(self).world().after(Call::Env { name: name@ }),
            r.deep_view() == old(self).world().mended(),
    {
        let a = self.perform(Request::Env { name: name.to_owned() });
        match a.failure {
            Some(_) => None,
            None => Some(a.stdout),
        }
    }

    /// The path of the running program.
    fn exe(&mut self) -> (r: Result<String, Error>)
        ensures
            final(self).world() == old(self).world().after(Call::Exe),
            error::outcome(r) == old(self).world().line(),
    {
        text_of(self.perform(Request::Exe))
    }

    /// Nanoseconds since the beginning of 1970, or 0 where the clock stands
    /// before it.
    fn clock(&mut self) -> (r: u128)
        ensures
            final(self).world() == old(self).world().after(Call::Clock),
            r == old(self).world().reply().nanos,
    {
        self.perform(Request::Clock).nanos
    }

    /// The number of this process.
    fn pid(&mut self) -> (r: u32)
        ensures
            final(self).world() == old(self).world().after(Call::Pid),
            r == old(self).world().reply().pid,
    {
        self.perform(Request::Pid).pid
    }

    /// Restarts the machine; comes back only where that failed.
    fn reboot(&mut self) -> (r: Result<(), Error>)
        ensures
            final(self).world() == old(self).world().after(Call::Reboot),
            error::outcome(r) == old(self).world().unit(),
    {
        unit_of(self.perform(Request::Reboot))
    }
}

// ---------------------------------------------------------------------------
// Commands
// ---------------------------------------------------------------------------

/// A world and what an operation returned in it.
pub open spec fn did<T: DeepView>(w: World, r: Result<T, Error>) -> (World, Result<T::V, Seq<char>>) {
    (w, error::outcome(r))
}

/// One thing after another: where the first fails, the second is not tried.
pub open spec fn chain<T>(
    first: (World, Result<(), Seq<char>>),
    second: spec_fn(World) -> (World, Result<T, Seq<char>>),
) -> (World, Result<T, Seq<char>>) {
    match first.1 {
        Err(m) => (first.0, Err(m)),
        Ok(()) => second(first.0),
    }
}

/// What was done, with an error put in its context.
pub open spec fn explained<T>(done: (World, Result<T, Seq<char>>), what: Seq<char>) -> (
    World,
    Result<T, Seq<char>>,
) {
    (done.0, error::in_context(done.1, what))
}

/// What a verb makes of output that has to be text: nothing, or a failure of
/// `what`.
pub open spec fn legible(out: Printed, what: Seq<char>) -> Result<(), Seq<char>> {
    match out.garbled {
        Some(m) => Err(error::within(what, m)),
        None => Ok(()),
    }
}

/// Insists on output that is text.
pub fn check_legible(out: &PrintOutput, what: &str) -> (res: Result<(), Error>)
    ensures
        error::outcome(res) == legible(out.deep_view(), what@),
        res matches Err(e) ==> e.outermost@ == what@,
{
    match &out.garbled {
        Some(m) => Err(Error::new(m.as_str()).context(what)),
        None => Ok(()),
    }
}

/// What went wrong with a call of its own accord: it could not be made, or it
/// went well and its output is no text. An output that a pipe does not get hold
/// of has no message.
pub open spec fn own_fault(c: Call, y: Reply) -> Option<Seq<char>> {
    match y.failure {
        Some(m) => if c is Pipe && y.step == Step::Connect {
            None
        } else {
            Some(m)
        },
        None => if c is Run && y.rc == 0 {
            y.garbled
        } else {
            None
        },
    }
}

/// What stands in front of an error that the last call gave rise to: the call's
/// own message is left out, unless there is nothing else.
pub open spec fn outermost(w: World, message: Seq<char>) -> Seq<char> {
    let n = w.calls.len() - 1;
    match own_fault(w.calls[n], (w.replies)(n as nat)) {
        Some(m) => if message == m {
            m
        } else {
            message.take(message.len() - m.len() - 2)
        },
        None => message,
    }
}

/// What stands in front of an error that says what was being done.
pub proof fn lemma_outermost(w: World, c: Call, what: Seq<char>)
    ensures
        own_fault(c, w.reply()) matches Some(m) ==> outermost(
            w.after(c),
            error::within(what, m),
        ) == what,
        own_fault(c, w.reply()) is None ==> outermost(w.after(c), what) == what,
        own_fault(c, w.reply()) matches Some(m) ==> outermost(w.after(c), m) == m,
{
    reveal_strlit(": ");
    if let Some(m) = own_fault(c, w.reply()) {
        let all = error::within(what, m);
        assert(all.len() == what.len() + 2 + m.len());
        assert(all.take(all.len() - m.len() - 2) =~= what);
    }
}

/// Shows a line; a failure is handed on, as one of `what`.
pub open spec fn tell_does(w: World, text: Seq<char>, what: Seq<char>) -> (World, Result<
    (),
    Seq<char>,
>) {
    (w.say(text), error::in_context(w.unit(), what))
}

/// Shows a line to the operator; a failure is handed on, as one of `what`.
pub fn tell<R: Runner>(r: &mut R, text: &str, what: &str) -> (res: Result<(), Error>)
    ensures
        did(final(r).world(), res) == tell_does(old(r).world(), text@, what@),
{
    error::with_context(r.tell(text), what)
}

/// Shows text as it is; a failure is handed on, as one of `what`.
pub open spec fn put_does(w: World, text: Seq<char>, what: Seq<char>) -> (World, Result<
    (),
    Seq<char>,
>) {
    (w.show(text), error::in_context(w.unit(), what))
}

/// Shows bytes as they are; a failure is handed on, as one of `what`.
pub open spec fn forward_does(w: World, bytes: Seq<u8>, what: Seq<char>) -> (World, Result<
    (),
    Seq<char>,
>) {
    (w.after(Call::Forward { bytes }), error::in_context(w.unit(), what))
}

/// Shows bytes to the operator as they are; a failure is handed on, as one of
/// `what`.
pub fn forward<R: Runner>(r: &mut R, bytes: &[u8], what: &str) -> (res: Result<(), Error>)
    ensures
        did(final(r).world(), res) == forward_does(old(r).world(), bytes@, what@),
{
    error::with_context(r.forward(bytes), what)
}

/// Shows text to the operator as it is; a failure is handed on, as one of
/// `what`.
pub fn put<R: Runner>(r: &mut R, text: &str, what: &str) -> (res: Result<(), Error>)
    ensures
        did(final(r).world(), res) == put_does(old(r).world(), text@, what@),
{
    error::with_context(r.put(text), what)
}

/// The complaint about a command that exited with an error.
pub open spec fn failed_text(prog: Seq<char>, args: Seq<Seq<char>>, out: Ran) -> Seq<char> {
    "`"@ + prog + " "@ + text::joined(args, " "@) + "` exited rc="@ + text::signed_decimal(out.rc) + ": "@
        + text::trimmed(out.stderr)
}

/// The line that announces a mutating command.
pub open spec fn announced(prog: Seq<char>, args: Seq<Seq<char>>) -> Seq<char> {
    "+ "@ + prog + " "@ + text::joined(args, " "@)
}

/// What is being done when a program is started.
pub open spec fn spawning_text(prog: Seq<char>, args: Seq<Seq<char>>) -> Seq<char> {
    "spawning `"@ + prog + " "@ + text::joined(args, " "@) + "`"@
}

/// The error of a program that could not be started.
pub fn not_spawned(e: Error, prog: &str, args: &[&str]) -> (r: Error)
    ensures
        r@ == error::within(spawning_text(prog@, args.deep_view()), e@),
{
    let joined: String = text::join_strs(args, " ");
    let doing: String = text::cat5("spawning `", prog, " ", joined.as_str(), "`");
    e.context(doing.as_str())
}

/// A mutating command: announced, then run; an exit code other than 0 is an
/// error.
pub open spec fn run_does(w: World, prog: Seq<char>, args: Seq<Seq<char>>) -> (World, Result<
    (),
    Seq<char>,
>) {
    let w1 = w.trace(announced(prog, args));
    (
        w1.run(prog, args),
        match w1.ran() {
            Err(m) => Err(error::within(spawning_text(prog, args), m)),
            Ok(out) => if out.rc != 0 {
                Err(failed_text(prog, args, out))
            } else {
                Ok(())
            },
        },
    )
}

/// A read-only command: run without announcement, its output is the result.
pub open spec fn capture_does(w: World, prog: Seq<char>, args: Seq<Seq<char>>) -> (World, Result<
    Seq<char>,
    Seq<char>,
>) {
    (
        w.run(prog, args),
        match w.ran() {
            Err(m) => Err(error::within(spawning_text(prog, args), m)),
            Ok(out) => if out.rc != 0 {
                Err(failed_text(prog, args, out))
            } else {
                Ok(out.stdout)
            },
        },
    )
}

fn err_msg(prog: &str, args: &[&str], out: &RunOutput) -> (e: Error)
    ensures
        e@ == failed_text(prog@, args.deep_view(), out.deep_view()),
{
    let joined_args: String = text::join_strs(args, " ");
    let rc: String = text::dec_signed(out.rc as i64);
    let m: String = text::cat7(
        "`",
        prog,
        " ",
        joined_args.as_str(),
        "` exited rc=",
        rc.as_str(),
        ": ",
    );
    let t: &str = text::trim(out.stderr.as_str());
    let m2: String = text::cat2(m.as_str(), t);
    Error::from_text(m2)
}

/// Runs a mutating command: announces it, and reports an exit code other
/// than 0 as an error that carries what the program printed on its error
/// stream.
pub fn run<R: Runner>(r: &mut R, prog: &str, args: &[&str]) -> (res: Result<(), Error>)
    ensures
        did(final(r).world(), res) == run_does(old(r).world(), prog@, args.deep_view()),
{
    let joined_args: String = text::join_strs(args, " ");
    let line: String = text::cat4("+ ", prog, " ", joined_args.as_str());
    r.trace(line.as_str());
    match r.run(prog, args) {
        Err(e) => Err(not_spawned(e, prog, args)),
        Ok(out) => if out.rc != 0 {
            Err(err_msg(prog, args, &out))
        } else {
            Ok(())
        },
    }
}

/// Runs a read-only command and returns what it printed.
pub fn capture<R: Runner>(r: &mut R, prog: &str, args: &[&str]) -> (res: Result<String, Error>)
    ensures
        did(final(r).world(), res) == capture_does(old(r).world(), prog@, args.deep_view()),
{
    match r.run(prog, args) {
        Err(e) => Err(not_spawned(e, prog, args)),
        Ok(out) => if out.rc != 0 {
            Err(err_msg(prog, args, &out))
        } else {
            Ok(out.stdout)
        },
    }
}

/// `zfs <args>` as a mutating command.
pub fn zfs<R: Runner>(r: &mut R, args: &[&str]) -> (res: Result<(), Error>)
    ensures
        did(final(r).world(), res) == run_does(old(r).world(), "zfs"@, args.deep_view()),
{
    run(r, "zfs", args)
}

/// `zfs <args>` as a read-only command.
pub fn zfs_capture<R: Runner>(r: &mut R, args: &[&str]) -> (res: Result<String, Error>)
    ensures
        did(final(r).world(), res) == capture_does(old(r).world(), "zfs"@, args.deep_view()),
{
    capture(r, "zfs", args)
}

/// `zpool <args>` as a read-only command.
pub fn zpool_capture<R: Runner>(r: &mut R, args: &[&str]) -> (res: Result<String, Error>)
    ensures
        did(final(r).world(), res) == capture_does(old(r).world(), "zpool"@, args.deep_view()),
{
    capture(r, "zpool", args)
}

/// Any program as a mutating command.
pub fn cmd<R: Runner>(r: &mut R, prog: &str, args: &[&str]) -> (res: Result<(), Error>)
    ensures
        did(final(r).world(), res) == run_does(old(r).world(), prog@, args.deep_view()),
{
    run(r, prog, args)
}

/// Any program as a read-only command.
pub fn cmd_capture<R: Runner>(r: &mut R, prog: &str, args: &[&str]) -> (res: Result<String, Error>)
    ensures
        did(final(r).world(), res) == capture_does(old(r).world(), prog@, args.deep_view()),
{
    capture(r, prog, args)
}

/// Shows lines, one after the other.
pub open spec fn say_all_does(w: World, lines: Seq<Seq<char>>) -> World
    decreases lines.len(),
{
    if lines.len() == 0 {
        w
    } else {
        say_all_does(w, lines.drop_last()).say(lines.last())
    }
}

/// Shows lines to the operator, one after the other.
pub fn say_all<R: Runner>(r: &mut R, lines: &Vec<String>)
    ensures
        final(r).world() == say_all_does(old(r).world(), lines.deep_view()),
{
    let ghost all = lines.deep_view();
    let mut i: usize = 0;
    assert(all.take(0) =~= seq![]);
    while i < lines.len()
        invariant
            i <= lines@.len(),
            all == lines.deep_view(),
            r.world() == say_all_does(old(r).world(), all.take(i as int)),
        decreases lines@.len() - i,
    {
        proof {
            assert(all.take(i + 1).drop_last() =~= all.take(i as int));
            assert(all.take(i + 1).last() == lines@[i as int]@);
        }
        r.say(lines[i].as_str());
        i = i + 1;
    }
    assert(all.take(i as int) =~= all);
}

/// Showing lines changes nothing.
pub proof fn lemma_say_all_looks(w: World, lines: Seq<Seq<char>>)
    ensures
        only_looked(w, say_all_does(w, lines)),
    decreases lines.len(),
{
    if lines.len() > 0 {
        lemma_say_all_looks(w, lines.drop_last());
    }
}

/// Shows lines, one after the other, up to the first that cannot be shown.
pub open spec fn tell_all_does(w: World, lines: Seq<Seq<char>>) -> (World, Result<(), Seq<char>>)
    decreases lines.len(),
{
    if lines.len() == 0 {
        (w, Ok(()))
    } else {
        let (w1, so_far) = tell_all_does(w, lines.drop_last());
        if so_far is Err {
            (w1, so_far)
        } else {
            (w1.say(lines.last()), w1.unit())
        }
    }
}

proof fn lemma_tell_stops(w: World, lines: Seq<Seq<char>>, i: int)
    requires
        0 <= i <= lines.len(),
        tell_all_does(w, lines.take(i)).1 is Err,
    ensures
        tell_all_does(w, lines) == tell_all_does(w, lines.take(i)),
    decreases lines.len() - i,
{
    if i < lines.len() {
        assert(lines.take(i + 1).drop_last() =~= lines.take(i));
        lemma_tell_stops(w, lines, i + 1);
    } else {
        assert(lines.take(i) =~= lines);
    }
}

/// Shows lines to the operator, one after the other, up to the first that
/// cannot be shown.
pub fn tell_all<R: Runner>(r: &mut R, lines: &Vec<String>) -> (res: Result<(), Error>)
    ensures
        did(final(r).world(), res) == tell_all_does(old(r).world(), lines.deep_view()),
{
    let ghost w = r.world();
    let ghost all = lines.deep_view();
    let mut i: usize = 0;
    assert(all.take(0) =~= seq![]);
    while i < lines.len()
        invariant
            i <= lines@.len(),
            all == lines.deep_view(),
            w == old(r).world(),
            (r.world(), Ok::<(), Seq<char>>(())) == tell_all_does(w, all.take(i as int)),
        decreases lines@.len() - i,
    {
        proof {
            assert(all.take(i + 1).drop_last() =~= all.take(i as int));
            assert(all.take(i + 1).last() == lines@[i as int]@);
        }
        if let Err(e) = r.tell(lines[i].as_str()) {
            proof {
                lemma_tell_stops(w, all, i + 1);
            }
            return Err(e);
        }
        i = i + 1;
    }
    assert(all.take(i as int) =~= all);
    Ok(())
}

/// Showing lines changes nothing.
pub proof fn lemma_tell_all_looks(w: World, lines: Seq<Seq<char>>)
    ensures
        only_looked(w, tell_all_does(w, lines).0),
    decreases lines.len(),
{
    if lines.len() > 0 {
        lemma_tell_all_looks(w, lines.drop_last());
    }
}

/// Shows lines, each with what is being done, up to the first that cannot be
/// shown.
pub open spec fn tell_each_does(w: World, lines: Seq<(Seq<char>, Seq<char>)>) -> (World, Result<
    (),
    Seq<char>,
>)
    decreases lines.len(),
{
    if lines.len() == 0 {
        (w, Ok(()))
    } else {
        let (w1, so_far) = tell_each_does(w, lines.drop_last());
        if so_far is Err {
            (w1, so_far)
        } else {
            tell_does(w1, lines.last().0, lines.last().1)
        }
    }
}

proof fn lemma_each_stops(w: World, lines: Seq<(Seq<char>, Seq<char>)>, i: int)
    requires
        0 <= i <= lines.len(),
        tell_each_does(w, lines.take(i)).1 is Err,
    ensures
        tell_each_does(w, lines) == tell_each_does(w, lines.take(i)),
    decreases lines.len() - i,
{
    if i < lines.len() {
        assert(lines.take(i + 1).drop_last() =~= lines.take(i));
        lemma_each_stops(w, lines, i + 1);
    } else {
        assert(lines.take(i) =~= lines);
    }
}

/// Shows lines to the operator, each with what is being done, up to the first
/// that cannot be shown.
pub fn tell_each<R: Runner>(r: &mut R, lines: &Vec<(String, &'static str)>) -> (res: Result<
    (),
    Error,
>)
    ensures
        did(final(r).world(), res) == tell_each_does(old(r).world(), lines.deep_view()),
{
    let ghost w = r.world();
    let ghost all = lines.deep_view();
    let mut i: usize = 0;
    assert(all.take(0) =~= seq![]);
    while i < lines.len()
        invariant
            i <= lines@.len(),
            all == lines.deep_view(),
            w == old(r).world(),
            (r.world(), Ok::<(), Seq<char>>(())) == tell_each_does(w, all.take(i as int)),
        decreases lines@.len() - i,
    {
        proof {
            assert(all.take(i + 1).drop_last() =~= all.take(i as int));
            assert(all.take(i + 1).last() == lines@[i as int].deep_view());
        }
        if let Err(e) = tell(r, lines[i].0.as_str(), lines[i].1) {
            proof {
                lemma_each_stops(w, all, i + 1);
            }
            return Err(e);
        }
        i = i + 1;
    }
    assert(all.take(i as int) =~= all);
    Ok(())
}

/// Puts one more line behind lines that are going to be shown.
pub fn push_line(lines: &mut Vec<(String, &'static str)>, text: &str, what: &'static str)
    ensures
        final(lines).deep_view() == old(lines).deep_view().push((text@, what@)),
{
    let ghost before = lines.deep_view();
    lines.push((text.to_owned(), what));
    assert(lines.deep_view() =~= before.push((text@, what@)));
}

/// Showing lines changes nothing.
pub proof fn lemma_tell_each_looks(w: World, lines: Seq<(Seq<char>, Seq<char>)>)
    ensures
        only_looked(w, tell_each_does(w, lines).0),
    decreases lines.len(),
{
    if lines.len() > 0 {
        lemma_tell_each_looks(w, lines.drop_last());
    }
}

} // verus!
