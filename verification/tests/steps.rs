//! Which step failed, what is passed on byte by byte, and in what order keys are
//! taken and left.

use zboot::boot::kexec::{KexecBackend, KexecPlan, SystemKexec};
use zboot::boot::menu::{fake_payload, run_with_payload, Next};
use zboot::boot::shell;
use zboot::boot::shell::{BootTarget, KernelChoice};
use zboot::cmd::deploy;
use zboot::cmd::deploy::be::{
    build_hostid_cpio_overlay, overlay_hostid_in_initrds, populate_be, unlock_root,
};
use zboot::cmd::deploy::hex_to_bytes_le;
use zboot::cmd::deploy::plan::{hostid_from_digest, hostid_from_hostname};
use zboot::cmd::deploy::source::Source;
use zboot::cmd::overlay;
use zboot::cmd::overlay::OverlayArgs;
use zboot::cmd::rollback;
use zboot::cmd::rollback::RollbackArgs;
use zboot::script::Script;
use zboot::sub::{Answer, Request, Runner, Step, World};
use zboot::zfs_ops;

/// A host that a function speaks for.
struct Answering<F: FnMut(&Request) -> Answer> {
    answer: F,
    calls: Vec<Request>,
}

impl<F: FnMut(&Request) -> Answer> Answering<F> {
    fn new(answer: F) -> Self {
        Answering { answer, calls: Vec::new() }
    }

    fn commands(&self) -> Vec<String> {
        self.calls
            .iter()
            .filter_map(|c| match c {
                Request::Run { prog, args } | Request::Attend { prog, args } => {
                    Some(format!("{prog} {}", args.join(" ")))
                }
                _ => None,
            })
            .collect()
    }
}

impl<F: FnMut(&Request) -> Answer> Runner for Answering<F> {
    fn world(&self) -> World {
        unreachable!("only contracts speak of it")
    }

    fn perform(&mut self, q: Request) -> Answer {
        let a = (self.answer)(&q);
        self.calls.push(q);
        a
    }
}

const BROKEN: &str = "Resource temporarily unavailable (os error 11)";

fn failing_at(step: Step) -> Answer {
    Answer { failure: Some(BROKEN.to_owned()), step, ..Answer::default() }
}

fn texts(v: &[&str]) -> Vec<String> {
    v.iter().map(|s| (*s).to_owned()).collect()
}

// ---------------------------------------------------------------------------
// Steps
// ---------------------------------------------------------------------------

/// What a full and an incremental send say of a step that failed.
fn send_errors(step: Step) -> (String, String, String) {
    let pipe = |q: &Request| match q {
        Request::Pipe { .. } => failing_at(step),
        _ => Answer::default(),
    };
    let full = zfs_ops::send_recv_full(&mut Answering::new(pipe), "p/a@s", "q/a").unwrap_err();
    let inc = zfs_ops::send_recv_incremental(&mut Answering::new(pipe), "p/a@r", "p/a@s", "q/a")
        .unwrap_err();
    (full.message, full.outermost, inc.message)
}

#[test]
fn a_send_tells_the_step_that_failed() {
    let (full, front, inc) = send_errors(Step::Start);
    assert_eq!(full, format!("spawning zfs send: {BROKEN}"));
    assert_eq!(front, "spawning zfs send");
    assert_eq!(inc, format!("spawning zfs send -I: {BROKEN}"));
    let (full, front, inc) = send_errors(Step::Connect);
    assert_eq!(full, "zfs send produced no stdout");
    assert_eq!(front, full);
    assert_eq!(inc, full);
    let (full, front, inc) = send_errors(Step::StartNext);
    assert_eq!(full, format!("spawning zfs receive: {BROKEN}"));
    assert_eq!(front, "spawning zfs receive");
    assert_eq!(inc, full);
    let (full, front, inc) = send_errors(Step::Wait);
    assert_eq!(full, format!("waiting for zfs send: {BROKEN}"));
    assert_eq!(front, "waiting for zfs send");
    assert_eq!(inc, BROKEN);
    let (full, front, inc) = send_errors(Step::WaitNext);
    assert_eq!(full, format!("waiting for zfs receive: {BROKEN}"));
    assert_eq!(front, "waiting for zfs receive");
    assert_eq!(inc, BROKEN);
}

#[test]
fn a_standalone_send_tells_the_step_that_failed() {
    let of = |step: Step| {
        let mut s = Script::new(vec![Answer::default(), failing_at(step)]);
        zfs_ops::send_recv_full_standalone(&mut s, "p/a@s", "q/a").unwrap_err().message
    };
    assert_eq!(of(Step::Start), format!("spawning zfs send -p: {BROKEN}"));
    assert_eq!(of(Step::Wait), format!("waiting for zfs send -p: {BROKEN}"));
}

#[test]
fn dividing_a_disk_tells_the_step_that_failed() {
    let of = |step: Step| {
        let mut h = Answering::new(|q: &Request| match q {
            Request::Feed { .. } => failing_at(step),
            _ => Answer::default(),
        });
        deploy::divide(&mut h, "/dev/vda", "label: gpt\n").unwrap_err().message
    };
    assert_eq!(of(Step::Start), format!("spawn sfdisk: {BROKEN}"));
    assert_eq!(of(Step::Connect), "sfdisk has no stdin");
    assert_eq!(of(Step::Write), format!("write sfdisk script: {BROKEN}"));
    assert_eq!(of(Step::Wait), format!("wait sfdisk: {BROKEN}"));
}

#[test]
fn unpacking_tells_the_step_that_failed() {
    let of = |step: Step| {
        let mut h = Answering::new(|q: &Request| match q {
            Request::Pipe { .. } => failing_at(step),
            _ => Answer::default(),
        });
        let source = Source::parse("tar:///srv/be.tar.zst").unwrap();
        populate_be(&mut h, &source, "/mnt", "deadbeef", "h").unwrap_err().message
    };
    assert_eq!(of(Step::Start), format!("spawn zstd: {BROKEN}"));
    assert_eq!(of(Step::Connect), "zstd stdout missing");
    assert_eq!(of(Step::StartNext), format!("spawn tar: {BROKEN}"));
    assert_eq!(of(Step::WaitNext), format!("wait tar: {BROKEN}"));
    assert_eq!(of(Step::Wait), format!("wait zstd: {BROKEN}"));
}

#[test]
fn laying_over_tells_the_step_that_failed() {
    let of = |first: bool, step: Step| {
        let mut h = Answering::new(|q: &Request| match q {
            Request::Pipe { prog, .. } if (prog == "zstd") == first => failing_at(step),
            Request::IsDir { .. } | Request::Exists { .. } | Request::IsFile { .. } => {
                Answer { yes: true, ..Answer::default() }
            }
            Request::Run { prog, args } if prog == "zfs" && args[0] == "get" => {
                Answer { stdout: "yes\n".to_owned(), ..Answer::default() }
            }
            _ => Answer::default(),
        });
        let args = OverlayArgs {
            tar: "/srv/o.tar.zst".to_owned(),
            be: Some("rpool/ROOT/be1".to_owned()),
            no_snapshot: true,
        };
        overlay::run(&mut h, &args).unwrap_err().message
    };
    assert!(of(true, Step::Start).ends_with(&format!("spawn zstd: {BROKEN}")));
    assert!(of(true, Step::Connect).ends_with("zstd stdout"));
    assert!(of(true, Step::StartNext).ends_with(&format!("spawn tar: {BROKEN}")));
    assert!(of(true, Step::Wait).ends_with(BROKEN));
    assert!(of(false, Step::Start).ends_with(&format!("spawn tar -c: {BROKEN}")));
    assert!(of(false, Step::Connect).ends_with("tar -c stdout"));
    assert!(of(false, Step::StartNext).ends_with(&format!("spawn tar -x: {BROKEN}")));
}

#[test]
fn adding_to_a_boot_image_tells_the_step_that_failed() {
    let of = |step: Step, nth: usize| {
        let mut seen: usize = 0;
        let mut h = Answering::new(|q: &Request| match q {
            Request::ListUntil { .. } => {
                Answer { names: texts(&["initrd.img-6.1"]), ..Answer::default() }
            }
            Request::ReadBytes { .. } => Answer { bytes: vec![1, 2, 3], ..Answer::default() },
            Request::AppendFile { .. } => {
                seen += 1;
                if seen == nth {
                    failing_at(step)
                } else {
                    Answer::default()
                }
            }
            _ => Answer::default(),
        });
        overlay_hostid_in_initrds(&mut h, "/mnt", "deadbeef").unwrap_err().message
    };
    let path = "/mnt/boot/initrd.img-6.1";
    assert_eq!(of(Step::Start, 1), format!("open {path} for append: {BROKEN}"));
    assert_eq!(of(Step::Write, 1), format!("write pad to {path}: {BROKEN}"));
    assert_eq!(of(Step::Write, 2), format!("write cpio overlay to {path}: {BROKEN}"));
}

#[test]
fn boot_images_before_a_broken_entry_are_overlaid() {
    let mut h = Answering::new(|q: &Request| match q {
        Request::ListUntil { .. } => Answer {
            names: texts(&["initrd.img-6.1"]),
            cut: Some("Input/output error (os error 5)".to_owned()),
            ..Answer::default()
        },
        Request::ReadBytes { .. } => Answer { bytes: vec![1, 2, 3, 4], ..Answer::default() },
        _ => Answer::default(),
    });
    let err = overlay_hostid_in_initrds(&mut h, "/mnt", "deadbeef").unwrap_err();
    assert_eq!(err.message, "Input/output error (os error 5)");
    let overlay = build_hostid_cpio_overlay(&[0xde, 0xad, 0xbe, 0xef]);
    let added: Vec<&Vec<u8>> = h
        .calls
        .iter()
        .filter_map(|c| match c {
            Request::AppendFile { bytes, .. } => Some(bytes),
            _ => None,
        })
        .collect();
    assert_eq!(added, vec![&overlay]);
}

// ---------------------------------------------------------------------------
// Bytes
// ---------------------------------------------------------------------------

#[test]
fn rollback_passes_bytes_on() {
    let out: Vec<u8> = vec![b'o', 0xff, 0xfe, b'\n'];
    let err: Vec<u8> = vec![0xc3, b'!'];
    let mut h = Answering::new(|q: &Request| match q {
        Request::Run { .. } => Answer {
            bytes: out.clone(),
            error_bytes: err.clone(),
            stdout: "o\u{fffd}\u{fffd}\n".to_owned(),
            stderr: "\u{fffd}!".to_owned(),
            ..Answer::default()
        },
        _ => Answer::default(),
    });
    let args = RollbackArgs { to: "rpool/ROOT/a@s".into(), name: Some("b".into()) };
    rollback::run(&mut h, &args).unwrap();
    let passed: Vec<&Vec<u8>> = h
        .calls
        .iter()
        .filter_map(|c| match c {
            Request::Forward { bytes } | Request::ForwardError { bytes } => Some(bytes),
            _ => None,
        })
        .collect();
    assert_eq!(passed, vec![&out, &err, &out, &err]);
}

fn target() -> BootTarget {
    BootTarget {
        idx: 1,
        pool: "rpool".to_owned(),
        name: "be1".to_owned(),
        dataset: "rpool/ROOT/be1".to_owned(),
        is_active: true,
        readonly: false,
        origin_short: None,
        mount_root: "/".to_owned(),
        kernels: vec![KernelChoice {
            vmlinuz: "vmlinuz".to_owned(),
            initrd: "initrd.img".to_owned(),
            is_default: true,
        }],
    }
}

#[test]
fn the_shell_passes_bytes_on() {
    let mut h = Answering::new(|q: &Request| match q {
        Request::Run { .. } => Answer { bytes: vec![0xff, b'\n'], ..Answer::default() },
        _ => Answer::default(),
    });
    let mut rw: Vec<String> = Vec::new();
    shell::turn(&mut h, "snapshots 1", &vec![target()], &mut rw).unwrap();
    assert!(h
        .calls
        .iter()
        .any(|c| matches!(c, Request::Forward { bytes } if *bytes == vec![0xff, b'\n'])));
}

// ---------------------------------------------------------------------------
// Keys
// ---------------------------------------------------------------------------

fn at_a_terminal(q: &Request, takes_keys: bool, hit: bool) -> Answer {
    match q {
        Request::Env { name } if name == "ZBOOT_BOOT_TIMEOUT" => {
            Answer { stdout: "1".to_owned(), ..Answer::default() }
        }
        Request::Env { .. } => failing_at(Step::Start),
        Request::Interactive => Answer { yes: true, ..Answer::default() },
        Request::TakeKeys if !takes_keys => failing_at(Step::Start),
        Request::KeyWithin { .. } => Answer { yes: hit, ..Answer::default() },
        _ => Answer::default(),
    }
}

#[test]
fn keys_are_taken_before_the_countdown_is_shown() {
    let mut h = Answering::new(|q: &Request| at_a_terminal(q, true, true));
    assert!(matches!(run_with_payload(&mut h, &fake_payload()).unwrap(), Next::Shell(_)));
    let at = |f: fn(&Request) -> bool| h.calls.iter().position(f).unwrap();
    let taken = at(|c| matches!(c, Request::TakeKeys));
    let shown = at(|c| matches!(c, Request::Show { .. }));
    let waited = at(|c| matches!(c, Request::KeyWithin { .. }));
    let left = at(|c| matches!(c, Request::LeaveKeys));
    assert!(taken < shown && shown < waited && waited < left, "{:?}", h.calls);
}

#[test]
fn nothing_is_shown_where_keys_cannot_be_taken() {
    let mut h = Answering::new(|q: &Request| at_a_terminal(q, false, false));
    let err = run_with_payload(&mut h, &fake_payload()).unwrap_err();
    assert_eq!(err.message, format!("setup raw stdin: {BROKEN}"));
    assert!(!h.calls.iter().any(|c| matches!(c, Request::Show { .. })));
}

#[test]
fn a_choice_that_is_no_text_is_mended() {
    let mut h = Answering::new(|q: &Request| match q {
        Request::Env { name } if name == "ZBOOT_BOOT_SELECT" => Answer {
            stdout: "no\u{fffd}pe".to_owned(),
            garbled: Some("not unicode".to_owned()),
            ..Answer::default()
        },
        _ => failing_at(Step::Start),
    });
    let err = run_with_payload(&mut h, &fake_payload());
    assert!(err.is_err());
    assert!(!h.calls.iter().any(|c| matches!(c, Request::Interactive)));
}

// ---------------------------------------------------------------------------
// The fallback of kexec
// ---------------------------------------------------------------------------

fn load_plan() -> KexecPlan {
    KexecPlan {
        dataset: "rpool/ROOT/be1".to_owned(),
        kernel: "/boot/vmlinuz".to_owned(),
        initrd: "/boot/initrd.img".to_owned(),
        cmdline: "quiet".to_owned(),
    }
}

fn lacks(q: &Request, missing: &[&str]) -> Answer {
    match q {
        Request::Run { prog, .. } | Request::Attend { prog, .. }
            if missing.contains(&prog.as_str()) =>
        {
            failing_at(Step::Start)
        }
        _ => Answer::default(),
    }
}

#[test]
fn kexec_falls_back_to_its_usual_place() {
    let args = "-l /boot/vmlinuz --initrd=/boot/initrd.img --command-line=quiet";
    let mut h = Answering::new(|q: &Request| lacks(q, &["kexec"]));
    let mut k = SystemKexec::new();
    k.load(&mut h, &load_plan()).unwrap();
    let err = k.exec(&mut h).unwrap_err();
    assert_eq!(
        h.commands(),
        vec![
            format!("kexec {args}"),
            format!("/usr/sbin/kexec {args}"),
            "kexec -e".to_owned(),
            "/usr/sbin/kexec -e".to_owned(),
        ]
    );
    assert_eq!(err.message, "`kexec -e` returned rc=Some(0) (should never return on success)");
}

#[test]
fn kexec_on_the_path_is_run_alone() {
    let mut h = Answering::new(|q: &Request| lacks(q, &[]));
    SystemKexec::new().load(&mut h, &load_plan()).unwrap();
    assert_eq!(h.commands().len(), 1);
    let mut h = Answering::new(|q: &Request| lacks(q, &["kexec", "/usr/sbin/kexec"]));
    let err = SystemKexec::new().load(&mut h, &load_plan()).unwrap_err();
    assert_eq!(err.message, format!("spawn `kexec -l ...`: {BROKEN}"));
    assert_eq!(h.commands().len(), 2);
    let mut h = Answering::new(|q: &Request| lacks(q, &["/opt/kexec"]));
    let mut k = SystemKexec { kexec_bin: Some("/opt/kexec".to_owned()) };
    let err = k.load(&mut h, &load_plan()).unwrap_err();
    assert_eq!(err.message, format!("spawn `/opt/kexec -l ...`: {BROKEN}"));
    assert_eq!(h.commands().len(), 1);
}

// ---------------------------------------------------------------------------
// Laws on values
// ---------------------------------------------------------------------------

#[test]
fn host_ids_are_read_back_and_written_back() {
    let id = hostid_from_hostname("zboot");
    let bytes = hex_to_bytes_le(&id).unwrap();
    assert_eq!(hostid_from_digest(&bytes), id);
    let digest: [u8; 5] = [0x00, 0x0a, 0xff, 0x10, 0x99];
    assert_eq!(hex_to_bytes_le(&hostid_from_digest(&digest)).unwrap(), digest[..4]);
}

#[test]
fn unlocking_twice_is_unlocking_once() {
    let content = "root:*:1\n\nroot\ndaemon:*:2:root:x\nroot::3";
    let once = unlock_root(content);
    assert_eq!(once, "root::1\n\nroot\ndaemon:*:2:root:x\nroot::3");
    assert_eq!(unlock_root(&once), once);
    assert_eq!(once.split('\n').count(), content.split('\n').count());
}
