//! `cmdline`: the `zboot:kernel-cmdline` property, which the boot loader puts
//! on the kernel's command line.
//!
//! Set on `<pool>/ROOT` it holds for all boot environments there; set on one
//! of them it holds for that one.

use vstd::prelude::*;

use crate::effects;
use crate::error;
use crate::error::Error;
use crate::sub;
use crate::sub::{Call, Runner, World};
use crate::text;
use crate::zfs_ops;

verus! {

/// Arguments of `cmdline`.
#[derive(Debug)]
pub struct CmdlineArgs {
    /// What to do; show the value where it is missing.
    pub action: Option<CmdlineAction>,
    /// The boot environment, a full dataset path.
    pub be: Option<String>,
    /// The pool whose `ROOT` is meant.
    pub root: Option<String>,
}

/// What to do with the property.
#[derive(Debug)]
pub enum CmdlineAction {
    /// Show the value and where it comes from.
    Get,
    /// Set the value.
    Assign {
        value: String,
    },
    /// Drop the local value.
    Clear,
    /// Open the value in an editor.
    Edit,
}

/// What to do with the property, by what it holds.
pub enum Action {
    Get,
    Assign(Seq<char>),
    Clear,
    Edit,
}

impl DeepView for CmdlineAction {
    type V = Action;

    open spec fn deep_view(&self) -> Action {
        match *self {
            CmdlineAction::Get => Action::Get,
            CmdlineAction::Assign { value } => Action::Assign(value@),
            CmdlineAction::Clear => Action::Clear,
            CmdlineAction::Edit => Action::Edit,
        }
    }
}

// ---------------------------------------------------------------------------
// Where
// ---------------------------------------------------------------------------

/// The dataset that `findmnt` names at `/`.
pub open spec fn source_of_root(rc: int, stdout: Seq<char>) -> Result<Seq<char>, Seq<char>> {
    let s = text::trimmed(stdout);
    if rc != 0 {
        Err("findmnt / exited "@ + zfs_ops::rc_text(rc))
    } else if s.len() == 0 {
        Err("findmnt produced no output for /"@)
    } else if s[0] == '/' {
        Err(
            "/ is not a ZFS dataset (got "@ + text::quoted_text(s) + "); pass --be or --root"@,
        )
    } else {
        Ok(s)
    }
}

/// The dataset that `findmnt` names at `/`.
pub fn parse_findmnt(rc: i32, stdout: &str) -> (res: Result<String, Error>)
    ensures
        error::outcome(res) == source_of_root(rc as int, stdout@),
{
    let s: &str = text::trim(stdout);
    proof {
        reveal_strlit("/");
    }
    if rc != 0 {
        let shown: String = zfs_ops::rc_shown(rc);
        return Err(Error::from_text(text::cat2("findmnt / exited ", shown.as_str())));
    }
    if s.is_empty() {
        return Err(Error::new("findmnt produced no output for /"));
    }
    let rooted: bool = text::starts_with(s, "/");
    proof {
        if s@[0] == '/' {
            assert(s@.take(1) =~= "/"@);
        } else if text::begins(s@, "/"@) {
            assert(s@.take(1)[0] == '/');
        }
    }
    if rooted {
        let q: String = text::quoted(s);
        return Err(
            Error::from_text(
                text::cat3(
                    "/ is not a ZFS dataset (got ",
                    q.as_str(),
                    "); pass --be or --root",
                ),
            ),
        );
    }
    Ok(s.to_owned())
}

/// Asks which dataset is mounted at `/`.
#[verifier::opaque]
pub open spec fn active_be_does(w: World) -> (World, Result<Seq<char>, Seq<char>>) {
    let w1 = w.run("findmnt"@, seq!["-n"@, "-o"@, "source"@, "/"@]);
    match w.ran() {
        Err(m) => (w1, Err(error::within("spawn findmnt"@, m))),
        Ok(out) => (w1, source_of_root(out.rc, out.stdout)),
    }
}

fn active_be<R: Runner>(r: &mut R) -> (res: Result<String, Error>)
    ensures
        sub::did(final(r).world(), res) == active_be_does(old(r).world()),
{
    proof {
        reveal(active_be_does);
    }
    let args = text::argv4("-n", "-o", "source", "/");
    match r.run("findmnt", args.as_slice()) {
        Err(e) => Err(e.context("spawn findmnt")),
        Ok(out) => parse_findmnt(out.rc, out.stdout.as_str()),
    }
}

/// The dataset that carries the property: the boot environment, else the
/// pool's `ROOT`, else what is running.
pub open spec fn resolve_target_does(
    w: World,
    be: Option<Seq<char>>,
    root: Option<Seq<char>>,
) -> (World, Result<Seq<char>, Seq<char>>) {
    match be {
        Some(ds) => (w, Ok(ds)),
        None => match root {
            Some(pool) => (w, Ok(pool + "/ROOT"@)),
            None => {
                let (w1, ds) = active_be_does(w);
                (
                    w1,
                    error::in_context(
                        ds,
                        "no --be / --root given and no active BE detected"@,
                    ),
                )
            },
        },
    }
}

fn resolve_target<R: Runner>(r: &mut R, args: &CmdlineArgs) -> (res: Result<String, Error>)
    ensures
        sub::did(final(r).world(), res) == resolve_target_does(
            old(r).world(),
            args.be.deep_view(),
            args.root.deep_view(),
        ),
{
    if let Some(be) = &args.be {
        return Ok(be.clone());
    }
    if let Some(pool) = &args.root {
        return Ok(text::cat2(pool.as_str(), "/ROOT"));
    }
    let ds = active_be(r);
    error::with_context(ds, "no --be / --root given and no active BE detected")
}

// ---------------------------------------------------------------------------
// Reading
// ---------------------------------------------------------------------------

/// The value and its source, from what `zfs get` printed.
pub open spec fn value_and_source(ds: Seq<char>, out: Seq<char>) -> Result<
    (Seq<char>, Seq<char>),
    Seq<char>,
> {
    let ls = text::lines_of(out);
    if ls.len() == 0 {
        Err("zfs get returned no output for "@ + ds)
    } else {
        match text::cut(ls[0], '\t') {
            Some(p) => Ok(p),
            None => Ok((ls[0], "-"@)),
        }
    }
}

/// The value and its source, from what `zfs get` printed.
pub fn parse_value(ds: &str, out: &str) -> (res: Result<(String, String), Error>)
    ensures
        error::outcome(res) == value_and_source(ds@, out@),
{
    let ls = text::lines(out);
    if ls.len() == 0 {
        return Err(Error::from_text(text::cat2("zfs get returned no output for ", ds)));
    }
    assert(ls.deep_view()[0] == ls@[0]@);
    match text::split_once(ls[0], '\t') {
        Some((v, s)) => Ok((v.to_owned(), s.to_owned())),
        None => Ok((ls[0].to_owned(), "-".to_owned())),
    }
}

/// Reads the value and its source.
#[verifier::opaque]
pub open spec fn read_property_does(w: World, ds: Seq<char>) -> (World, Result<
    (Seq<char>, Seq<char>),
    Seq<char>,
>) {
    let (w1, got) = sub::capture_does(
        w,
        "zfs"@,
        seq!["get"@, "-H"@, "-o"@, "value,source"@, "zboot:kernel-cmdline"@, ds],
    );
    match got {
        Err(m) => (w1, Err(m)),
        Ok(t) => (w1, value_and_source(ds, t)),
    }
}

fn read_property<R: Runner>(r: &mut R, ds: &str) -> (res: Result<(String, String), Error>)
    ensures
        sub::did(final(r).world(), res) == read_property_does(old(r).world(), ds@),
{
    proof {
        reveal(read_property_does);
    }
    let args = text::argv6("get", "-H", "-o", "value,source", "zboot:kernel-cmdline", ds);
    match sub::zfs_capture(r, args.as_slice()) {
        Err(e) => Err(e),
        Ok(t) => parse_value(ds, t.as_str()),
    }
}

/// Shows the value.
pub open spec fn get_does(w: World, ds: Seq<char>) -> (World, Result<(), Seq<char>>) {
    let (w1, got) = read_property_does(w, ds);
    match got {
        Err(m) => (w1, Err(m)),
        Ok(p) => sub::tell_does(
            w1,
            ds + ": "@ + (if p.0 == "-"@ {
                "(unset)"@
            } else {
                p.0
            }) + "  ["@ + p.1 + "]"@,
            "write get output"@,
        ),
    }
}

fn get<R: Runner>(r: &mut R, ds: &str) -> (res: Result<(), Error>)
    ensures
        sub::did(final(r).world(), res) == get_does(old(r).world(), ds@),
{
    match read_property(r, ds) {
        Err(e) => Err(e),
        Ok((value, source)) => {
            let shown: &str = if text::eq(value.as_str(), "-") {
                "(unset)"
            } else {
                value.as_str()
            };
            let line: String = text::cat6(ds, ": ", shown, "  [", source.as_str(), "]");
            sub::tell(r, line.as_str(), "write get output")
        },
    }
}

// ---------------------------------------------------------------------------
// Writing
// ---------------------------------------------------------------------------

/// Sets the value.
#[verifier::opaque]
pub open spec fn set_does(w: World, ds: Seq<char>, value: Seq<char>) -> (World, Result<
    (),
    Seq<char>,
>) {
    let (w1, res) = sub::run_does(
        w,
        "zfs"@,
        seq!["set"@, "zboot:kernel-cmdline="@ + value, ds],
    );
    match res {
        Err(m) => (w1, Err(error::within("zfs set zboot:kernel-cmdline on "@ + ds, m))),
        Ok(()) => sub::tell_does(
            w1,
            "set zboot:kernel-cmdline on "@ + ds + ": "@ + value,
            "write set output"@,
        ),
    }
}

fn set<R: Runner>(r: &mut R, ds: &str, value: &str) -> (res: Result<(), Error>)
    ensures
        sub::did(final(r).world(), res) == set_does(old(r).world(), ds@, value@),
{
    proof {
        reveal(set_does);
    }
    let arg: String = text::cat2("zboot:kernel-cmdline=", value);
    let args = text::argv3("set", arg.as_str(), ds);
    match sub::zfs(r, args.as_slice()) {
        Err(e) => {
            let what: String = text::cat2("zfs set zboot:kernel-cmdline on ", ds);
            Err(e.context(what.as_str()))
        },
        Ok(()) => {
            let line: String = text::cat4("set zboot:kernel-cmdline on ", ds, ": ", value);
            sub::tell(r, line.as_str(), "write set output")
        },
    }
}

/// Drops the local value.
#[verifier::opaque]
pub open spec fn clear_does(w: World, ds: Seq<char>) -> (World, Result<(), Seq<char>>) {
    let (w1, res) = sub::run_does(w, "zfs"@, seq!["inherit"@, "zboot:kernel-cmdline"@, ds]);
    match res {
        Err(m) => (w1, Err(error::within("zfs inherit zboot:kernel-cmdline on "@ + ds, m))),
        Ok(()) => sub::tell_does(
            w1,
            "cleared local zboot:kernel-cmdline on "@ + ds,
            "write clear output"@,
        ),
    }
}

fn clear<R: Runner>(r: &mut R, ds: &str) -> (res: Result<(), Error>)
    ensures
        sub::did(final(r).world(), res) == clear_does(old(r).world(), ds@),
{
    proof {
        reveal(clear_does);
    }
    let args = text::argv3("inherit", "zboot:kernel-cmdline", ds);
    match sub::zfs(r, args.as_slice()) {
        Err(e) => {
            let what: String = text::cat2("zfs inherit zboot:kernel-cmdline on ", ds);
            Err(e.context(what.as_str()))
        },
        Ok(()) => {
            let line: String = text::cat2("cleared local zboot:kernel-cmdline on ", ds);
            sub::tell(r, line.as_str(), "write clear output")
        },
    }
}

// ---------------------------------------------------------------------------
// Editing
// ---------------------------------------------------------------------------

/// What the editor starts from.
pub open spec fn initial_text(current: Seq<char>) -> Seq<char> {
    if current == "-"@ {
        ""@
    } else {
        current
    }
}

/// Takes what was saved: nothing new, nothing at all, or a new value.
pub open spec fn save_does(w: World, ds: Seq<char>, initial: Seq<char>, saved: Seq<char>) -> (
    World,
    Result<(), Seq<char>>,
) {
    let value = text::trimmed(saved);
    if value == initial {
        sub::tell_does(w, "no change"@, "write no-change"@)
    } else if value.len() == 0 {
        clear_does(w, ds)
    } else {
        set_does(w, ds, value)
    }
}

fn save<R: Runner>(r: &mut R, ds: &str, initial: &str, saved: &str) -> (res: Result<(), Error>)
    ensures
        sub::did(final(r).world(), res) == save_does(old(r).world(), ds@, initial@, saved@),
{
    let value: &str = text::trim(saved);
    if text::eq(value, initial) {
        return sub::tell(r, "no change", "write no-change");
    }
    if value.is_empty() {
        clear(r, ds)
    } else {
        set(r, ds, value)
    }
}

/// Lets the operator edit a file, and takes the file away.
#[verifier::opaque]
pub open spec fn edit_file_does(w: World, path: Seq<char>, initial: Seq<char>) -> (World, Result<
    Seq<char>,
    Seq<char>,
>) {
    let w1 = w.after(Call::WriteFile { path, bytes: vstd::utf8::encode_utf8(initial + "\n"@) });
    match w.unit() {
        Err(m) => (w1, Err(error::within("write "@ + path, m))),
        Ok(()) => {
            let w2 = w1.after(Call::Env { name: "EDITOR"@ });
            let editor = match w1.maybe() {
                Some(e) => e,
                None => "vi"@,
            };
            let w3 = w2.after(Call::Attend { prog: editor, args: seq![path] });
            match w2.code() {
                Err(m) => (w3, Err(error::within("spawn editor "@ + editor, m))),
                Ok(rc) => if rc != 0 {
                    (
                        w3.after(Call::RemoveFile { path }),
                        Err(editor + " exited "@ + zfs_ops::rc_text(rc as int)),
                    )
                } else {
                    let w4 = w3.after(Call::ReadFile { path });
                    match w3.line() {
                        Err(m) => (w4, Err(error::within("read "@ + path, m))),
                        Ok(t) => (w4.after(Call::RemoveFile { path }), Ok(t)),
                    }
                },
            }
        },
    }
}

fn edit_file<R: Runner>(r: &mut R, path: &str, initial: &str) -> (res: Result<String, Error>)
    ensures
        sub::did(final(r).world(), res) == edit_file_does(old(r).world(), path@, initial@),
{
    proof {
        reveal(edit_file_does);
    }
    let content: String = text::cat2(initial, "\n");
    match r.write_file(path, content.as_str().as_bytes()) {
        Err(e) => {
            let what: String = text::cat2("write ", path);
            return Err(e.context(what.as_str()));
        },
        Ok(()) => {},
    }
    let editor: String = match r.env("EDITOR") {
        Some(e) => e,
        None => "vi".to_owned(),
    };
    let args = text::argv1(path);
    let rc: i32 = match r.attend(editor.as_str(), args.as_slice()) {
        Err(e) => {
            let what: String = text::cat2("spawn editor ", editor.as_str());
            return Err(e.context(what.as_str()));
        },
        Ok(rc) => rc,
    };
    if rc != 0 {
        let _ = r.remove_file(path);
        let shown: String = zfs_ops::rc_shown(rc);
        return Err(
            Error::from_text(text::cat3(editor.as_str(), " exited ", shown.as_str())),
        );
    }
    match r.read_file(path) {
        Err(e) => {
            let what: String = text::cat2("read ", path);
            Err(e.context(what.as_str()))
        },
        Ok(t) => {
            let _ = r.remove_file(path);
            Ok(t)
        },
    }
}

/// Lets the operator edit the value.
#[verifier::opaque]
pub open spec fn edit_does(w: World, ds: Seq<char>) -> (World, Result<(), Seq<char>>) {
    let (w1, got) = read_property_does(w, ds);
    match got {
        Err(m) => (w1, Err(m)),
        Ok(p) => {
            let initial = initial_text(p.0);
            let w2 = w1.after(Call::Pid);
            let w3 = w2.after(Call::Clock);
            let path = "/tmp/zboot-cmdline-"@ + text::decimal(w1.reply().pid as nat) + "-"@
                + text::decimal(w2.reply().nanos as nat);
            let (w4, saved) = edit_file_does(w3, path, initial);
            match saved {
                Err(m) => (w4, Err(m)),
                Ok(t) => save_does(w4, ds, initial, t),
            }
        },
    }
}

fn edit<R: Runner>(r: &mut R, ds: &str) -> (res: Result<(), Error>)
    ensures
        sub::did(final(r).world(), res) == edit_does(old(r).world(), ds@),
{
    proof {
        reveal(edit_does);
    }
    let current: String = match read_property(r, ds) {
        Err(e) => return Err(e),
        Ok((v, _)) => v,
    };
    let initial: &str = if text::eq(current.as_str(), "-") {
        ""
    } else {
        current.as_str()
    };
    let pid: String = text::dec(r.pid() as u128);
    let now: String = text::dec(r.clock());
    let path: String = text::cat4("/tmp/zboot-cmdline-", pid.as_str(), "-", now.as_str());
    match edit_file(r, path.as_str(), initial) {
        Err(e) => Err(e),
        Ok(t) => save(r, ds, initial, t.as_str()),
    }
}

// ---------------------------------------------------------------------------
// The verb
// ---------------------------------------------------------------------------

/// What `cmdline` does.
pub open spec fn run_does(
    w: World,
    action: Option<Action>,
    be: Option<Seq<char>>,
    root: Option<Seq<char>>,
) -> (World, Result<(), Seq<char>>) {
    let (w1, target) = resolve_target_does(w, be, root);
    match target {
        Err(m) => (w1, Err(m)),
        Ok(ds) => match action {
            None => get_does(w1, ds),
            Some(Action::Get) => get_does(w1, ds),
            Some(Action::Assign(value)) => set_does(w1, ds, value),
            Some(Action::Clear) => clear_does(w1, ds),
            Some(Action::Edit) => edit_does(w1, ds),
        },
    }
}

/// `cmdline`: shows, sets, drops or edits the kernel command line of a boot
/// environment or of a pool.
pub fn run<R: Runner>(r: &mut R, args: &CmdlineArgs) -> (res: Result<(), Error>)
    ensures
        sub::did(final(r).world(), res) == run_does(
            old(r).world(),
            args.action.deep_view(),
            args.be.deep_view(),
            args.root.deep_view(),
        ),
{
    let ds: String = match resolve_target(r, args) {
        Err(e) => return Err(e),
        Ok(d) => d,
    };
    match &args.action {
        None => get(r, ds.as_str()),
        Some(CmdlineAction::Get) => get(r, ds.as_str()),
        Some(CmdlineAction::Assign { value }) => set(r, ds.as_str(), value.as_str()),
        Some(CmdlineAction::Clear) => clear(r, ds.as_str()),
        Some(CmdlineAction::Edit) => edit(r, ds.as_str()),
    }
}

/// `--be` takes precedence over `--root`, and neither asks the machine.
pub proof fn law_target_precedence(w: World, be: Seq<char>, root: Option<Seq<char>>)
    ensures
        resolve_target_does(w, Some(be), root) == (w, Ok::<Seq<char>, Seq<char>>(be)),
        root matches Some(pool) ==> resolve_target_does(w, None, root) == (
            w,
            Ok::<Seq<char>, Seq<char>>(pool + "/ROOT"@),
        ),
{
}

/// An edit that saves what was there changes nothing.
pub proof fn law_unchanged_edit(w: World, ds: Seq<char>, initial: Seq<char>, saved: Seq<char>)
    requires
        text::trimmed(saved) == initial,
    ensures
        save_does(w, ds, initial, saved).0 == w.say("no change"@),
{
}

/// Showing the value changes nothing.
pub proof fn law_get_looks(w: World, be: Option<Seq<char>>, root: Option<Seq<char>>)
    ensures
        sub::only_looked(w, run_does(w, None, be, root).0),
        sub::only_looked(w, run_does(w, Some(Action::Get), be, root).0),
{
    reveal(active_be_does);
    reveal(read_property_does);
}

/// A command line that was set stands on the dataset, and one that was cleared
/// is gone from it.
pub proof fn law_cmdline_is_written(w: World, ds: Seq<char>, value: Seq<char>)
    ensures
        set_does(w, ds, value).1 is Ok ==> effects::ran(
            w,
            set_does(w, ds, value).0,
            "zfs"@,
            seq!["set"@, "zboot:kernel-cmdline="@ + value, ds],
        ),
        clear_does(w, ds).1 is Ok ==> effects::ran(
            w,
            clear_does(w, ds).0,
            "zfs"@,
            seq!["inherit"@, "zboot:kernel-cmdline"@, ds],
        ),
{
    reveal(set_does);
    reveal(clear_does);
    let set = seq!["set"@, "zboot:kernel-cmdline="@ + value, ds];
    let clear = seq!["inherit"@, "zboot:kernel-cmdline"@, ds];
    effects::lemma_run_ran(w, "zfs"@, set);
    effects::lemma_run_ran(w, "zfs"@, clear);
    let a = sub::run_does(w, "zfs"@, set).0;
    let b = sub::run_does(w, "zfs"@, clear).0;
    assert(sub::continues(w, w));
    if set_does(w, ds, value).1 is Ok {
        effects::lemma_ran_within(w, w, a, set_does(w, ds, value).0, "zfs"@, set);
    }
    if clear_does(w, ds).1 is Ok {
        effects::lemma_ran_within(w, w, b, clear_does(w, ds).0, "zfs"@, clear);
    }
}

/// What was edited is what is kept: a new text is set, and an emptied one clears
/// the property.
pub proof fn law_edit_is_kept(w: World, ds: Seq<char>, initial: Seq<char>, saved: Seq<char>)
    requires
        save_does(w, ds, initial, saved).1 is Ok,
        text::trimmed(saved) != initial,
    ensures
        ({
            let end = save_does(w, ds, initial, saved).0;
            let value = text::trimmed(saved);
            if value.len() > 0 {
                effects::ran(
                    w,
                    end,
                    "zfs"@,
                    seq!["set"@, "zboot:kernel-cmdline="@ + value, ds],
                )
            } else {
                effects::ran(w, end, "zfs"@, seq!["inherit"@, "zboot:kernel-cmdline"@, ds])
            }
        }),
{
    law_cmdline_is_written(w, ds, text::trimmed(saved));
}

/// An edit begins with what the property holds, hands it to the editor, and
/// keeps what the editor left in the file.
pub proof fn law_edit_keeps_what_the_editor_left(w: World, path: Seq<char>, initial: Seq<char>)
    requires
        edit_file_does(w, path, initial).1 is Ok,
    ensures
        ({
            let (end, left) = edit_file_does(w, path, initial);
            let n = w.calls.len() as int;
            &&& end.calls.len() == n + 5
            &&& end.calls[n] == (Call::WriteFile {
                path,
                bytes: vstd::utf8::encode_utf8(initial + "\n"@),
            })
            &&& end.calls[n + 2] is Attend && end.calls[n + 2]->Attend_args == seq![path]
            &&& end.calls[n + 3] == (Call::ReadFile { path })
            &&& left->Ok_0 == (w.replies)((n + 3) as nat).stdout
            &&& end.calls[n + 4] == (Call::RemoveFile { path })
        }),
{
    reveal(edit_file_does);
}

/// What is shown is the dataset's own value, where it has one.
pub proof fn law_value_is_shown(w: World, ds: Seq<char>, value: Seq<char>, source: Seq<char>)
    requires
        effects::succeeded(w, w.calls.len() as int),
        text::lines_of(w.reply().stdout).len() > 0,
        text::lines_of(w.reply().stdout)[0] == value + seq!['\t'] + source,
        !value.contains('\t'),
        value != "-"@,
    ensures
        ({
            let end = get_does(w, ds).0;
            &&& end.calls[w.calls.len() as int] == (Call::Run {
                prog: "zfs"@,
                args: seq![
                    "get"@,
                    "-H"@,
                    "-o"@,
                    "value,source"@,
                    "zboot:kernel-cmdline"@,
                    ds,
                ],
            })
            &&& sub::called(
                w,
                end,
                Call::Say { text: ds + ": "@ + value + "  ["@ + source + "]"@ },
            )
        }),
{
    reveal(read_property_does);
    let line = text::lines_of(w.reply().stdout)[0];
    assert(line[value.len() as int] == '\t');
    assert forall|j: int| 0 <= j < value.len() implies #[trigger] line[j] != '\t' by {
        assert(line[j] == value[j]);
        assert(value.contains(value[j]));
    }
    text::lemma_position_is(line, '\t', value.len() as int);
    assert(line.take(value.len() as int) =~= value);
    assert(line.skip(value.len() as int + 1) =~= source);
    let end = get_does(w, ds).0;
    assert(end.calls[w.calls.len() as int + 1] is Say);
}

/// What is asked for is done to the dataset that is meant: the environment
/// named, or else the place for environments of the pool named.
pub proof fn law_cmdline_is_written_where_asked(
    w: World,
    value: Seq<char>,
    be: Option<Seq<char>>,
    root: Option<Seq<char>>,
)
    requires
        be is Some || root is Some,
    ensures
        ({
            let ds = match be {
                Some(ds) => ds,
                None => root->0 + "/ROOT"@,
            };
            let (set, a) = run_does(w, Some(Action::Assign(value)), be, root);
            let (clear, b) = run_does(w, Some(Action::Clear), be, root);
            &&& a is Ok ==> effects::ran(
                w,
                set,
                "zfs"@,
                seq!["set"@, "zboot:kernel-cmdline="@ + value, ds],
            )
            &&& b is Ok ==> effects::ran(
                w,
                clear,
                "zfs"@,
                seq!["inherit"@, "zboot:kernel-cmdline"@, ds],
            )
        }),
{
    let ds = match be {
        Some(ds) => ds,
        None => root->0 + "/ROOT"@,
    };
    law_cmdline_is_written(w, ds, value);
}

} // verus!
