//! The boot loader that the program carries with it: some bytes, none where it
//! was built without one.

use vstd::prelude::*;

use crate::effects;
use crate::error::Error;
use crate::paths;
use crate::sub;
use crate::sub::{Call, Runner, World};
use crate::text;

verus! {

/// Writes the loader into a directory: first under another name, so that what
/// stands under its own is always whole.
#[verifier::opaque]
pub open spec fn write_embedded_does(w: World, dir: Seq<char>, bytes: Seq<u8>) -> (World, Result<
    (),
    Seq<char>,
>) {
    let dest = paths::under(dir, "zboot-boot.efi"@);
    let tmp = paths::under(dir, "zboot-boot.efi.partial"@);
    if bytes.len() == 0 {
        (
            w,
            Err(
                "embedded zboot-boot.efi is empty — rebuild with `bash boot/build.sh && cargo build --release`"@,
            ),
        )
    } else {
        sub::chain(
            sub::explained(
                (w.after(Call::MakeDirs { path: dir }), w.unit()),
                "create parent dir for "@ + dest,
            ),
            |w1: World|
                sub::chain(
                    sub::explained(
                        (w1.after(Call::WriteFile { path: tmp, bytes }), w1.unit()),
                        "write embedded zboot-boot.efi to "@ + tmp,
                    ),
                    |w2: World|
                        sub::explained(
                            (w2.after(Call::RenameFile { from: tmp, to: dest }), w2.unit()),
                            "rename "@ + tmp + " → "@ + dest,
                        ),
                ),
        )
    }
}

/// Writes the loader into a directory.
pub fn write_embedded<R: Runner>(r: &mut R, dir: &str, bytes: &[u8]) -> (res: Result<(), Error>)
    ensures
        sub::did(final(r).world(), res) == write_embedded_does(old(r).world(), dir@, bytes@),
{
    proof {
        reveal(write_embedded_does);
    }
    if bytes.len() == 0 {
        return Err(
            Error::new(
                "embedded zboot-boot.efi is empty — rebuild with `bash boot/build.sh && cargo build --release`",
            ),
        );
    }
    let dest: String = paths::join(dir, "zboot-boot.efi");
    let tmp: String = paths::join(dir, "zboot-boot.efi.partial");
    match r.make_dirs(dir) {
        Err(e) => {
            let what: String = text::cat2("create parent dir for ", dest.as_str());
            return Err(e.context(what.as_str()));
        },
        Ok(()) => {},
    }
    match r.write_file(tmp.as_str(), bytes) {
        Err(e) => {
            let what: String = text::cat2("write embedded zboot-boot.efi to ", tmp.as_str());
            return Err(e.context(what.as_str()));
        },
        Ok(()) => {},
    }
    match r.rename_file(tmp.as_str(), dest.as_str()) {
        Err(e) => {
            let what: String = text::cat4("rename ", tmp.as_str(), " → ", dest.as_str());
            Err(e.context(what.as_str()))
        },
        Ok(()) => Ok(()),
    }
}

/// The directory for temporary files.
pub open spec fn temp_dir_does(w: World) -> (World, Seq<char>) {
    (
        w.after(Call::Env { name: "TMPDIR"@ }),
        match w.maybe() {
            Some(d) => d,
            None => "/tmp"@,
        },
    )
}

/// The directory for temporary files.
pub fn temp_dir<R: Runner>(r: &mut R) -> (d: String)
    ensures
        (final(r).world(), d@) == temp_dir_does(old(r).world()),
{
    match r.env("TMPDIR") {
        Some(d) => d,
        None => "/tmp".to_owned(),
    }
}

/// Writes the loader to a temporary file, and tells its path.
#[verifier::opaque]
pub open spec fn extract_does(w: World, bytes: Seq<u8>) -> (World, Result<Seq<char>, Seq<char>>) {
    if bytes.len() == 0 {
        (w, Err("embedded zboot-boot.efi is empty placeholder"@))
    } else {
        let (w1, dir) = temp_dir_does(w);
        let path = paths::under(
            dir,
            "zboot-boot-"@ + text::decimal(w1.reply().pid as nat) + ".efi"@,
        );
        let w2 = w1.after(Call::Pid);
        sub::chain(
            sub::explained(
                (w2.after(Call::WriteFile { path, bytes }), w2.unit()),
                "write embedded zboot-boot.efi to "@ + path,
            ),
            |w3: World| (w3, Ok(path)),
        )
    }
}

/// Writes the loader to a temporary file, and tells its path.
pub fn extract_to_tmp<R: Runner>(r: &mut R, bytes: &[u8]) -> (res: Result<String, Error>)
    ensures
        sub::did(final(r).world(), res) == extract_does(old(r).world(), bytes@),
{
    proof {
        reveal(extract_does);
    }
    if bytes.len() == 0 {
        return Err(Error::new("embedded zboot-boot.efi is empty placeholder"));
    }
    let dir: String = temp_dir(r);
    let pid: String = text::dec(r.pid() as u128);
    let name: String = text::cat3("zboot-boot-", pid.as_str(), ".efi");
    let path: String = paths::join(dir.as_str(), name.as_str());
    match r.write_file(path.as_str(), bytes) {
        Err(e) => {
            let what: String = text::cat2("write embedded zboot-boot.efi to ", path.as_str());
            Err(e.context(what.as_str()))
        },
        Ok(()) => Ok(path),
    }
}

/// The loader's own name is written last, by renaming: whatever fails before
/// leaves what stood there.
pub proof fn law_loader_is_replaced_whole(w: World, dir: Seq<char>, bytes: Seq<u8>, i: int)
    requires
        w.calls.len() <= i < write_embedded_does(w, dir, bytes).0.calls.len(),
    ensures
        ({
            let end = write_embedded_does(w, dir, bytes).0;
            let dest = paths::under(dir, "zboot-boot.efi"@);
            &&& !(end.calls[i] matches Call::WriteFile { path, bytes: b } && path == dest)
            &&& end.calls[i] matches Call::RenameFile { from, to } ==> i == end.calls.len() - 1
        }),
{
    reveal(write_embedded_does);
    reveal_strlit("zboot-boot.efi");
    reveal_strlit("zboot-boot.efi.partial");
    let dest = paths::under(dir, "zboot-boot.efi"@);
    let tmp = paths::under(dir, "zboot-boot.efi.partial"@);
    assert(tmp.len() == dest.len() + 8);
}

/// A boot loader that was written out stands in its place, byte for byte.
pub proof fn law_loader_is_written(w: World, dir: Seq<char>, bytes: Seq<u8>)
    ensures
        ({
            let (end, res) = write_embedded_does(w, dir, bytes);
            let dest = paths::under(dir, "zboot-boot.efi"@);
            &&& sub::continues(w, end)
            &&& res is Ok ==> exists|tmp: Seq<char>|
                effects::came_off(w, end, Call::WriteFile { path: tmp, bytes })
                    && effects::came_off(w, end, #[trigger] moving(tmp, dest))
        }),
{
    reveal(write_embedded_does);
    let (end, res) = write_embedded_does(w, dir, bytes);
    let dest = paths::under(dir, "zboot-boot.efi"@);
    let tmp = paths::under(dir, "zboot-boot.efi.partial"@);
    if res is Ok {
        let n = w.calls.len() as int;
        assert(end.calls[n + 1] == Call::WriteFile { path: tmp, bytes });
        assert(end.calls[n + 2] == moving(tmp, dest));
        assert(effects::went_well(end, n + 1));
        assert(effects::went_well(end, n + 2));
        assert(effects::came_off(w, end, moving(tmp, dest)));
    }
}

/// The call that gives a file its name.
pub open spec fn moving(from: Seq<char>, to: Seq<char>) -> Call {
    Call::RenameFile { from, to }
}

/// A boot loader that was put aside is all there.
pub proof fn law_loader_is_put_aside(w: World, bytes: Seq<u8>)
    requires
        extract_does(w, bytes).1 is Ok,
    ensures
        effects::came_off(
            w,
            extract_does(w, bytes).0,
            Call::WriteFile { path: extract_does(w, bytes).1->Ok_0, bytes },
        ),
{
    reveal(extract_does);
    let (end, res) = extract_does(w, bytes);
    let n = end.calls.len() - 1;
    assert(end.calls[n] == Call::WriteFile { path: res->Ok_0, bytes });
    assert(effects::went_well(end, n));
}

} // verus!
